//! A support bundle as the command line uses it: filters are borrowed, and a
//! command may be run on each log.
use crate::ereport;
use crate::ereport::Access;
use crate::error::BundleError;
use crate::inventory;
use crate::inventory::{Decoded, Layout};
use crate::listing;
use crate::log_file;
use crate::log_file::LogFile;
use crate::logs;
use crate::logs::{Choice, CommandOutcome, CommandRequest, Manner, Selection, Style, Window};
use crate::names;
use crate::pattern::Pattern;
use crate::reader;
use crate::reader::LineCount;
use crate::sled::{BundleInfo, Inventory, Sled};
use crate::source;
use crate::source::{BundleSource, SourceCall};
use crate::text;
use crate::time::{TimeRange, Timestamp};
use vstd::prelude::*;

verus! {

/// Glob-pattern filters selecting ereports by hardware component.
#[derive(Clone, Copy, Debug)]
pub struct ComponentInfo<'a> {
    /// Part number glob patterns, (e.g., "123-0000456", "123-0004*").
    pub part: &'a [Pattern],
    /// Serial number glob patterns, (e.g., "BRM03250000", "BRM0325*").
    pub serial: &'a [Pattern],
    /// Class glob patterns, (e.g., "hw.insert.psu", "hw.*").
    pub class: &'a [Pattern],
}

/// Glob-pattern filters selecting which log files to include.
#[derive(Clone, Copy, Debug)]
pub struct LogFilter<'a> {
    /// Sled cubby number, serial number or UUID glob patterns (e.g., "16",
    /// "BRM032500*", "0f16e501-*").
    pub sled: &'a [Pattern],
    /// Service name glob patterns to filter (e.g., "mg-ddm", "ntp*").
    pub service: &'a [Pattern],
    /// Zone name glob patterns to filter (e.g., "oxz_switch", "oxz_nexus*").
    pub zone: &'a [Pattern],
    /// File path glob patterns to filter (e.g., "bundle_id.txt",
    /// "*nvmeadm.json").
    pub path: &'a [Pattern],
}

/// How to render the selected log files.
#[derive(Clone, Copy, Debug)]
pub struct LogOutput<'a> {
    /// List matching files without printing their contents.
    pub list: bool,
    /// Number of lines to print from matching files.
    pub line_ct: Option<LineCount>,
    /// Don't display the file name header when outputting file contents.
    pub no_header: bool,
    /// Pipe the contents of each selected file to the standard input of this
    /// command. The command will be executed as `$SHELL -c <COMMAND>`.
    pub command: Option<&'a str>,
}

impl<'a> Default for LogOutput<'a> {
    fn default() -> (r: Self)
        ensures
            !r.list && r.line_ct is None && !r.no_header && r.command is None,
    {
        LogOutput { list: false, line_ct: None, no_header: false, command: None }
    }
}

impl<'a> Default for ComponentInfo<'a> {
    fn default() -> (r: Self)
        ensures
            r.part@.len() == 0 && r.serial@.len() == 0 && r.class@.len() == 0,
    {
        ComponentInfo { part: &[], serial: &[], class: &[] }
    }
}

impl<'a> Default for LogFilter<'a> {
    fn default() -> (r: Self)
        ensures
            r.sled@.len() == 0 && r.service@.len() == 0 && r.zone@.len() == 0 && r.path@.len() == 0,
    {
        LogFilter { sled: &[], service: &[], zone: &[], path: &[] }
    }
}

impl<'a> LogFilter<'a> {
    /// The patterns of the filter.
    pub open spec fn choice(&self) -> Choice {
        Choice { sled: self.sled@, service: self.service@, zone: self.zone@, path: self.path@ }
    }
}

impl<'a> LogOutput<'a> {
    /// The rendering that is asked for.
    pub open spec fn rendering(&self) -> Style {
        Style { list: self.list, line_ct: self.line_ct, no_header: self.no_header }
    }

    /// How the logs are to be rendered.
    pub fn style(&self) -> (r: Style)
        ensures
            r == self.rendering(),
    {
        Style { list: self.list, line_ct: self.line_ct, no_header: self.no_header }
    }
}

/// The bounds of a range of time: the end and the start of the window.
pub open spec fn window(time: TimeRange) -> Window {
    (source::instant(time.before), source::instant(time.after))
}

/// Every log among the names is one of a known sled.
pub open spec fn all_known(names: Seq<Seq<char>>, sleds: Map<Seq<char>, Sled>) -> bool {
    forall|i: int|
        0 <= i < names.len() ==> (#[trigger] log_file::log_of(names[i]) matches Some(log)
            ==> sleds.contains_key(log.sled_uuid))
}

/// Whether every log among the names is one of a known sled.
pub fn knows_all_sleds(names: &Vec<String>, info: &BundleInfo) -> (r: bool)
    ensures
        r == all_known(text::texts(names@), info@.sleds),
{
    let ghost all = text::texts(names@);
    let mut i: usize = 0;
    while i < names.len()
        invariant
            i <= names.len(),
            all == text::texts(names@),
            forall|j: int|
                0 <= j < i ==> (#[trigger] log_file::log_of(all[j]) matches Some(log)
                    ==> info@.sleds.contains_key(log.sled_uuid)),
        decreases names.len() - i,
    {
        assert(all[i as int] == names[i as int]@);
        match LogFile::from_path(names[i].as_str()) {
            Some(log) => {
                if info.sleds.get(log.sled_uuid.as_str()).is_none() {
                    assert(log_file::log_of(all[i as int]) == Some(log@));
                    return false;
                }
            },
            None => {},
        }
        i = i + 1;
    }
    true
}

/// An Oxide support bundle.
pub struct Bundle<S> {
    info: BundleInfo,
    warning: Option<String>,
    source: S,
}

impl<S: BundleSource> Bundle<S> {
    /// The names that the bundle's source lists.
    pub closed spec fn names(&self) -> Seq<Seq<char>> {
        self.source.names()
    }

    /// The requests that were made to the bundle's source.
    pub closed spec fn calls(&self) -> Seq<SourceCall> {
        self.source.calls()
    }

    /// The sleds of the bundle.
    pub closed spec fn inventory(&self) -> Inventory {
        self.info@
    }

    /// What came up while the inventory was read.
    pub closed spec fn noted(&self) -> Option<Seq<char>> {
        text::optional(self.warning)
    }

    /// Construct a `Bundle` from a bundle source. Zones and services are
    /// inferred from files below a service directory.
    pub fn from_source<D: Fn(&[u8], bool) -> Decoded>(source: S, decode: &D) -> (r: Result<
        Self,
        BundleError,
    >)
        requires
            inventory::is_decoder(*decode),
        ensures
            match r {
                Ok(bundle) => {
                    &&& bundle.names() == source.names()
                    &&& source::continues(source.calls(), bundle.calls())
                    &&& inventory::inventory_read(
                        source.names(),
                        Layout::Components,
                        *decode,
                        bundle.calls(),
                        source.calls().len() as int,
                    ) == Some(
                        (
                            Ok::<inventory::Warned, source::Chain>(
                                (bundle.inventory(), bundle.noted()),
                            ),
                            bundle.calls().len() as int,
                        ),
                    )
                },
                Err(e) => exists|calls: Seq<SourceCall>|
                    {
                        &&& #[trigger] source::continues(source.calls(), calls)
                        &&& inventory::inventory_read(
                            source.names(),
                            Layout::Components,
                            *decode,
                            calls,
                            source.calls().len() as int,
                        ) == Some((Err::<inventory::Warned, source::Chain>(e@), calls.len() as int))
                    },
            },
    {
        let mut source = source;
        let ghost before = source;
        match inventory::read_inventory(&mut source, Layout::Components, decode) {
            Ok((info, warning)) => Ok(Bundle { info, warning, source }),
            Err(e) => {
                assert(source::continues(before.calls(), source.calls()));
                Err(e)
            },
        }
    }

    /// The warning that came up while the inventory was read.
    pub fn warning(&self) -> (r: &Option<String>)
        ensures
            text::optional(*r) == self.noted(),
    {
        &self.warning
    }

    /// Whether every log in the bundle is one of a known sled.
    pub fn sleds_are_known(&self) -> (r: bool)
        ensures
            r == all_known(self.names(), self.inventory().sleds),
    {
        let names = self.source.file_names();
        knows_all_sleds(&names, &self.info)
    }

    /// List all ereports in the archive.
    pub fn ereports_list(&mut self, components: ComponentInfo<'_>, out: &mut String) -> (r: Result<
        (),
        BundleError,
    >)
        ensures
            final(self).names() == old(self).names(),
            final(self).inventory() == old(self).inventory(),
            final(self).noted() == old(self).noted(),
            source::continues(old(self).calls(), final(self).calls()),
            ({
                let all = ereport::candidates(
                    old(self).names(),
                    old(self).names().len() as int,
                    components.part@,
                    components.serial@,
                    Access::Lenient,
                );
                let width = ereport::ena_width(all);
                match ereport::walked(
                    all,
                    0,
                    components.class@,
                    Access::Lenient,
                    final(self).calls(),
                    old(self).calls().len() as int,
                    Seq::empty(),
                ) {
                    Some(((kept, failure), next)) => {
                        &&& final(out)@ == old(out)@ + ereport::list_heading(width)
                            + ereport::list_rows(kept, width)
                        &&& failure == reader::failure(r)
                        &&& next == final(self).calls().len()
                    },
                    None => false,
                }
            }),
    {
        ereport::list_reports(
            &mut self.source,
            components.part,
            components.serial,
            components.class,
            Access::Lenient,
            out,
        )
    }

    /// Display all ereports matching the filter criteria.
    pub fn ereports_show(
        &mut self,
        components: ComponentInfo<'_>,
        no_header: bool,
        out: &mut String,
    ) -> (r: Result<(), BundleError>)
        ensures
            final(self).names() == old(self).names(),
            final(self).inventory() == old(self).inventory(),
            final(self).noted() == old(self).noted(),
            source::continues(old(self).calls(), final(self).calls()),
            match ereport::walked(
                ereport::candidates(
                    old(self).names(),
                    old(self).names().len() as int,
                    components.part@,
                    components.serial@,
                    Access::Lenient,
                ),
                0,
                components.class@,
                Access::Lenient,
                final(self).calls(),
                old(self).calls().len() as int,
                Seq::empty(),
            ) {
                Some(((kept, failure), next)) => {
                    &&& final(out)@ == old(out)@ + ereport::blocks(kept, no_header)
                    &&& failure == reader::failure(r)
                    &&& next == final(self).calls().len()
                },
                None => false,
            },
    {
        ereport::show_reports(
            &mut self.source,
            components.part,
            components.serial,
            components.class,
            Access::Lenient,
            no_header,
            out,
        )
    }

    /// Display all logs in the archive matching the filter criteria.
    ///
    /// Where a command is to be run on each log, the run halts with what the
    /// command is to read; [`Bundle::resume_logs`] goes on from there.
    pub fn logs<F: Fn(&[u8]) -> Option<Timestamp>>(
        &mut self,
        filter: LogFilter<'_>,
        time: TimeRange,
        output: LogOutput<'_>,
        decode: &F,
        out: &mut Vec<u8>,
    ) -> (r: Result<Option<CommandRequest>, BundleError>)
        requires
            all_known(old(self).names(), old(self).inventory().sleds),
            logs::is_decoder(*decode),
        ensures
            final(self).names() == old(self).names(),
            final(self).inventory() == old(self).inventory(),
            final(self).noted() == old(self).noted(),
            source::continues(old(self).calls(), final(self).calls()),
            ({
                let matching = logs::selected(
                    old(self).names(),
                    old(self).names().len() as int,
                    old(self).inventory().sleds,
                    filter.choice(),
                );
                match logs::ran(
                    matching,
                    0,
                    window(time),
                    *decode,
                    Manner::Named,
                    output.rendering(),
                    output.command is Some,
                    final(self).calls(),
                    old(self).calls().len() as int,
                    old(out)@,
                ) {
                    Some(((halt, written), next)) => {
                        &&& final(out)@ == written
                        &&& logs::halted(r, matching, halt)
                        &&& next == final(self).calls().len()
                    },
                    None => false,
                }
            }),
    {
        let names = self.source.file_names();
        let selection = Selection {
            sled: filter.sled,
            service: filter.service,
            zone: filter.zone,
            path: filter.path,
        };
        let matching = logs::select_logs(&names, &self.info.sleds, &selection);
        let style = output.style();
        logs::pipe_logs(
            &mut self.source,
            matching,
            0,
            &time.before,
            &time.after,
            decode,
            &style,
            output.command.is_some(),
            out,
        )
    }

    /// Goes on with the logs behind the one that a command was given, after the
    /// command `command` ended with `outcome`.
    pub fn resume_logs<F: Fn(&[u8]) -> Option<Timestamp>>(
        &mut self,
        request: CommandRequest,
        command: &str,
        outcome: CommandOutcome,
        time: TimeRange,
        output: LogOutput<'_>,
        decode: &F,
        out: &mut Vec<u8>,
    ) -> (r: Result<Option<CommandRequest>, BundleError>)
        requires
            logs::is_decoder(*decode),
        ensures
            final(self).names() == old(self).names(),
            final(self).inventory() == old(self).inventory(),
            final(self).noted() == old(self).noted(),
            source::continues(old(self).calls(), final(self).calls()),
            match logs::command_failure(command@, request.read_failure(), outcome) {
                Some(failure) => {
                    &&& r matches Err(e) && e@ == failure
                    &&& final(out)@ == old(out)@ + logs::command_output(outcome)
                    &&& final(self).calls() == old(self).calls()
                },
                None => match logs::ran(
                    request.all_logs(),
                    request.next_log(),
                    window(time),
                    *decode,
                    Manner::Named,
                    output.rendering(),
                    output.command is Some,
                    final(self).calls(),
                    old(self).calls().len() as int,
                    logs::footed(
                        old(out)@ + logs::command_output(outcome),
                        output.no_header,
                    ),
                ) {
                    Some(((halt, written), next)) => {
                        &&& final(out)@ == written
                        &&& logs::halted(r, request.all_logs(), halt)
                        &&& next == final(self).calls().len()
                    },
                    None => false,
                },
            },
    {
        let style = output.style();
        logs::resume_logs(
            &mut self.source,
            request,
            command,
            outcome,
            &time.before,
            &time.after,
            decode,
            &style,
            output.command.is_some(),
            out,
        )
    }

    /// List all services with logs present in the archive, whether their sled has
    /// an inventory record or not; a sled without one is selected by its UUID.
    pub fn services(&self, sled: &[Pattern], out: &mut String)
        ensures
            final(out)@ == old(out)@ + listing::lines(
                names::sorted(
                    inventory::present_services(
                        self.names(),
                        Layout::Components,
                        self.inventory().sleds,
                        sled@,
                    ),
                ),
            ),
    {
        let names = self.source.file_names();
        listing::write_present_services(&names, Layout::Components, &self.info, sled, out)
    }

    /// List all sleds shown in the bundle's inventory.
    pub fn sleds(&self, out: &mut String)
        ensures
            final(out)@ == old(out)@ + listing::sleds_text(self.inventory()),
    {
        listing::write_sleds(&self.info, out)
    }

    /// List all zones found in the archive, whether their sled has an inventory
    /// record or not; a sled without one is selected by its UUID.
    pub fn zones(&self, sled: &[Pattern], out: &mut String)
        ensures
            final(out)@ == old(out)@ + listing::lines(
                names::sorted(
                    inventory::present_zones(
                        self.names(),
                        Layout::Components,
                        self.inventory().sleds,
                        sled@,
                    ),
                ),
            ),
    {
        let names = self.source.file_names();
        listing::write_present_zones(&names, Layout::Components, &self.info, sled, out)
    }
}

} // verus!
