//! A parsed support bundle: structured access to its sleds, ereports and logs,
//! and the text listings of them.
use crate::ereport;
use crate::ereport::{Access, EreportEntry, EreportHandler};
use crate::error;
use crate::error::BundleError;
use crate::inventory;
use crate::inventory::{Decoded, Layout};
use crate::listing;
use crate::logs;
use crate::logs::{
    Choice, CommandOutcome, CommandRequest, Halt, LogHandler, Manner, Selection, Style, Window,
};
use crate::names;
use crate::pattern::Pattern;
use crate::reader;
use crate::reader::LineCount;
use crate::sled::{BundleInfo, Inventory};
use crate::source;
use crate::source::{BundleSource, SourceCall};
use crate::text;
use crate::time::Timestamp;
use vstd::prelude::*;

verus! {

/// Filter for log file queries.
#[derive(Debug)]
pub struct LogFilter {
    pub sled: Vec<Pattern>,
    pub service: Vec<Pattern>,
    pub zone: Vec<Pattern>,
    pub path: Vec<Pattern>,
    pub after: Option<Timestamp>,
    pub before: Option<Timestamp>,
    pub list: bool,
    pub line_ct: Option<LineCount>,
    pub no_header: bool,
}

impl Default for LogFilter {
    fn default() -> (r: Self)
        ensures
            r.sled@.len() == 0 && r.service@.len() == 0 && r.zone@.len() == 0 && r.path@.len() == 0,
            r.after is None && r.before is None,
            !r.list && r.line_ct is None && !r.no_header,
    {
        LogFilter {
            sled: Vec::new(),
            service: Vec::new(),
            zone: Vec::new(),
            path: Vec::new(),
            after: None,
            before: None,
            list: false,
            line_ct: None,
            no_header: false,
        }
    }
}

/// Data-selection filter for structured ereport queries.
#[derive(Debug)]
pub struct EreportFilter {
    pub part: Vec<Pattern>,
    pub serial: Vec<Pattern>,
    pub class: Vec<Pattern>,
}

impl Default for EreportFilter {
    fn default() -> (r: Self)
        ensures
            r.part@.len() == 0 && r.serial@.len() == 0 && r.class@.len() == 0,
    {
        EreportFilter { part: Vec::new(), serial: Vec::new(), class: Vec::new() }
    }
}

/// Filter for the ereport list command.
#[derive(Debug)]
pub struct EreportListFilter {
    pub part: Vec<Pattern>,
    pub serial: Vec<Pattern>,
    pub class: Vec<Pattern>,
}

impl Default for EreportListFilter {
    fn default() -> (r: Self)
        ensures
            r.part@.len() == 0 && r.serial@.len() == 0 && r.class@.len() == 0,
    {
        EreportListFilter { part: Vec::new(), serial: Vec::new(), class: Vec::new() }
    }
}

/// Filter for the ereport show command.
#[derive(Debug)]
pub struct EreportShowFilter {
    pub part: Vec<Pattern>,
    pub serial: Vec<Pattern>,
    pub class: Vec<Pattern>,
    pub no_header: bool,
}

impl Default for EreportShowFilter {
    fn default() -> (r: Self)
        ensures
            r.part@.len() == 0 && r.serial@.len() == 0 && r.class@.len() == 0,
            !r.no_header,
    {
        EreportShowFilter {
            part: Vec::new(),
            serial: Vec::new(),
            class: Vec::new(),
            no_header: false,
        }
    }
}

impl LogFilter {
    /// The patterns of the filter.
    pub open spec fn choice(&self) -> Choice {
        Choice {
            sled: self.sled@,
            service: self.service@,
            zone: self.zone@,
            path: self.path@,
        }
    }

    /// The bounds of the filter: the end and the start of its window.
    pub open spec fn window(&self) -> Window {
        (source::instant(self.before), source::instant(self.after))
    }

    /// The rendering that the filter asks for.
    pub open spec fn rendering(&self) -> Style {
        Style { list: self.list, line_ct: self.line_ct, no_header: self.no_header }
    }

    /// Which logs the filter takes.
    pub fn selection(&self) -> (r: Selection<'_>)
        ensures
            r@ == self.choice(),
    {
        Selection {
            sled: self.sled.as_slice(),
            service: self.service.as_slice(),
            zone: self.zone.as_slice(),
            path: self.path.as_slice(),
        }
    }

    /// How the filter wants the logs rendered.
    pub fn style(&self) -> (r: Style)
        ensures
            r == self.rendering(),
    {
        Style { list: self.list, line_ct: self.line_ct, no_header: self.no_header }
    }
}

impl BundleInfo {
    /// Reads the inventory of a bundle, with the warning that came up. Zones
    /// and services are inferred from what lies below a service directory.
    pub fn from_source<S: BundleSource + ?Sized, D: Fn(&[u8], bool) -> Decoded>(
        source: &mut S,
        decode: &D,
    ) -> (r: Result<(BundleInfo, Option<String>), BundleError>)
        requires
            inventory::is_decoder(*decode),
        ensures
            final(source).names() == old(source).names(),
            source::continues(old(source).calls(), final(source).calls()),
            forall|h: Seq<SourceCall>|
                source::continues(final(source).calls(), h) ==> #[trigger] inventory::inventory_read(
                    old(source).names(),
                    Layout::Descendants,
                    *decode,
                    h,
                    old(source).calls().len() as int,
                ) == Some((inventory::warned(r), final(source).calls().len() as int)),
    {
        inventory::read_inventory(source, Layout::Descendants, decode)
    }
}

/// A handle to a parsed support bundle.
pub struct Bundle<S> {
    source: S,
    info: BundleInfo,
    warning: Option<String>,
}

impl<S: BundleSource> Bundle<S> {
    /// The names that the bundle's source lists.
    pub closed spec fn names(&self) -> Seq<Seq<char>> {
        self.source.names()
    }

    /// The requests that were made to the bundle's source.
    pub closed spec fn calls(&self) -> Seq<SourceCall> {
        self.source.calls()
    }
}

impl<S> Bundle<S> {
    /// The sleds of the bundle.
    pub closed spec fn inventory(&self) -> Inventory {
        self.info@
    }

    /// What came up while the inventory was read.
    pub closed spec fn noted(&self) -> Option<Seq<char>> {
        text::optional(self.warning)
    }

    /// Access the parsed bundle metadata.
    pub fn info(&self) -> (r: &BundleInfo)
        ensures
            r@ == self.inventory(),
    {
        &self.info
    }

    /// The warning that came up while the inventory was read.
    pub fn warning(&self) -> (r: &Option<String>)
        ensures
            text::optional(*r) == self.noted(),
    {
        &self.warning
    }

    /// Write a sled listing to the given sink.
    pub fn write_sleds(&self, out: &mut String)
        ensures
            final(out)@ == old(out)@ + listing::sleds_text(self.inventory()),
    {
        listing::write_sleds(&self.info, out)
    }

    /// Write a services listing to the given sink, filtered by sled patterns.
    pub fn write_services(&self, sled_patterns: &[Pattern], out: &mut String)
        ensures
            final(out)@ == old(out)@ + listing::lines(
                names::sorted(listing::services_of(self.inventory().sleds, sled_patterns@)),
            ),
    {
        listing::write_services(&self.info, sled_patterns, out)
    }

    /// Write a zones listing to the given sink, filtered by sled patterns.
    pub fn write_zones(&self, sled_patterns: &[Pattern], out: &mut String)
        ensures
            final(out)@ == old(out)@ + listing::lines(
                names::sorted(listing::zones_of(self.inventory().sleds, sled_patterns@)),
            ),
    {
        listing::write_zones(&self.info, sled_patterns, out)
    }
}

impl<S: BundleSource> Bundle<S> {
    /// Create a `Bundle` from a support bundle source.
    pub fn from_source<D: Fn(&[u8], bool) -> Decoded>(source: S, decode: &D) -> (r: Result<
        Self,
        BundleError,
    >)
        requires
            inventory::is_decoder(*decode),
        ensures
            match r {
                Ok(bundle) => {
                    &&& bundle.names() == source.names()
                    &&& source::continues(source.calls(), bundle.calls())
                    &&& inventory::inventory_read(
                        source.names(),
                        Layout::Descendants,
                        *decode,
                        bundle.calls(),
                        source.calls().len() as int,
                    ) == Some(
                        (
                            Ok::<inventory::Warned, source::Chain>(
                                (bundle.inventory(), bundle.noted()),
                            ),
                            bundle.calls().len() as int,
                        ),
                    )
                },
                Err(e) => exists|calls: Seq<SourceCall>, cause: source::Chain|
                    #![trigger source::continues(source.calls(), calls), error::wrapped(
                        "failed to parse sled information from bundle"@,
                        cause,
                    )]
                    {
                        &&& source::continues(source.calls(), calls)
                        &&& inventory::inventory_read(
                            source.names(),
                            Layout::Descendants,
                            *decode,
                            calls,
                            source.calls().len() as int,
                        ) == Some((Err::<inventory::Warned, source::Chain>(cause), calls.len() as int))
                        &&& e@ == error::wrapped(
                            "failed to parse sled information from bundle"@,
                            cause,
                        )
                    },
            },
    {
        let mut source = source;
        let ghost before = source;
        match BundleInfo::from_source(&mut source, decode) {
            Ok((info, warning)) => Ok(Bundle { source, info, warning }),
            Err(e) => {
                assert(source::continues(before.calls(), source.calls()));
                Err(e.context("failed to parse sled information from bundle".to_owned()))
            },
        }
    }

    /// Iterate over structured ereports matching the data-selection filter.
    pub fn for_each_ereport<H: EreportHandler>(
        &mut self,
        filter: &EreportFilter,
        handler: &mut H,
    ) -> (r: Result<(), BundleError>)
        requires
            old(handler).ready(),
        ensures
            final(handler).ready(),
            final(self).names() == old(self).names(),
            final(self).inventory() == old(self).inventory(),
            final(self).noted() == old(self).noted(),
            source::continues(old(self).calls(), final(self).calls()),
            source::continues(old(handler).handled(), final(handler).handled()),
            ereport::visited(
                ereport::candidates(
                    old(self).names(),
                    old(self).names().len() as int,
                    filter.part@,
                    filter.serial@,
                    Access::Exact,
                ),
                0,
                filter.class@,
                Access::Exact,
                final(self).calls(),
                old(self).calls().len() as int,
                final(handler).handled(),
                old(handler).handled().len() as int,
            ) == Some(
                (
                    reader::failure(r),
                    final(self).calls().len() as int,
                    final(handler).handled().len() as int,
                ),
            ),
    {
        ereport::visit(
            &mut self.source,
            filter.part.as_slice(),
            filter.serial.as_slice(),
            filter.class.as_slice(),
            Access::Exact,
            handler,
        )
    }

    /// Collect structured ereports matching the data-selection filter.
    pub fn ereports(&mut self, filter: &EreportFilter) -> (r: Result<Vec<EreportEntry>, BundleError>)
        ensures
            final(self).names() == old(self).names(),
            final(self).inventory() == old(self).inventory(),
            final(self).noted() == old(self).noted(),
            source::continues(old(self).calls(), final(self).calls()),
            match ereport::walked(
                ereport::candidates(
                    old(self).names(),
                    old(self).names().len() as int,
                    filter.part@,
                    filter.serial@,
                    Access::Exact,
                ),
                0,
                filter.class@,
                Access::Exact,
                final(self).calls(),
                old(self).calls().len() as int,
                Seq::empty(),
            ) {
                Some(((kept, failure), next)) => {
                    &&& next == final(self).calls().len()
                    &&& match r {
                        Ok(entries) => failure is None && ereport::entry_values(entries@) == kept,
                        Err(e) => failure == Some(e@),
                    }
                },
                None => false,
            },
    {
        ereport::collect_reports(
            &mut self.source,
            filter.part.as_slice(),
            filter.serial.as_slice(),
            filter.class.as_slice(),
            Access::Exact,
        )
    }

    /// Write an ereport listing to the given sink.
    pub fn write_ereports_list(&mut self, filter: &EreportListFilter, out: &mut String) -> (r: Result<
        (),
        BundleError,
    >)
        ensures
            final(self).names() == old(self).names(),
            final(self).inventory() == old(self).inventory(),
            final(self).noted() == old(self).noted(),
            source::continues(old(self).calls(), final(self).calls()),
            ({
                let all = ereport::candidates(
                    old(self).names(),
                    old(self).names().len() as int,
                    filter.part@,
                    filter.serial@,
                    Access::Exact,
                );
                let width = ereport::ena_width(all);
                match ereport::walked(
                    all,
                    0,
                    filter.class@,
                    Access::Exact,
                    final(self).calls(),
                    old(self).calls().len() as int,
                    Seq::empty(),
                ) {
                    Some(((kept, failure), next)) => {
                        &&& final(out)@ == old(out)@ + ereport::list_heading(width)
                            + ereport::list_rows(kept, width)
                        &&& failure == reader::failure(r)
                        &&& next == final(self).calls().len()
                    },
                    None => false,
                }
            }),
    {
        ereport::list_reports(
            &mut self.source,
            filter.part.as_slice(),
            filter.serial.as_slice(),
            filter.class.as_slice(),
            Access::Exact,
            out,
        )
    }

    /// Write ereport contents to the given sink.
    pub fn write_ereports_show(&mut self, filter: &EreportShowFilter, out: &mut String) -> (r: Result<
        (),
        BundleError,
    >)
        ensures
            final(self).names() == old(self).names(),
            final(self).inventory() == old(self).inventory(),
            final(self).noted() == old(self).noted(),
            source::continues(old(self).calls(), final(self).calls()),
            match ereport::walked(
                ereport::candidates(
                    old(self).names(),
                    old(self).names().len() as int,
                    filter.part@,
                    filter.serial@,
                    Access::Exact,
                ),
                0,
                filter.class@,
                Access::Exact,
                final(self).calls(),
                old(self).calls().len() as int,
                Seq::empty(),
            ) {
                Some(((kept, failure), next)) => {
                    &&& final(out)@ == old(out)@ + ereport::blocks(kept, filter.no_header)
                    &&& failure == reader::failure(r)
                    &&& next == final(self).calls().len()
                },
                None => false,
            },
    {
        ereport::show_reports(
            &mut self.source,
            filter.part.as_slice(),
            filter.serial.as_slice(),
            filter.class.as_slice(),
            Access::Exact,
            filter.no_header,
            out,
        )
    }

    /// Iterate over log files in the bundle that match the given filter,
    /// calling `handler` for each match.
    ///
    /// When time filtering is active (`filter.before` or `filter.after` is
    /// set), the first 64KB of each file is read into a buffer to determine
    /// the file's timestamp. If the timestamp passes the filter, the buffer
    /// is passed as `Some(buf)` so the handler can use it without re-reading.
    /// When no time filtering is active, `None` is passed.
    pub fn for_each_log<F: Fn(&[u8]) -> Option<Timestamp>, H: LogHandler<S>>(
        &mut self,
        filter: &LogFilter,
        decode: &F,
        handler: &mut H,
    ) -> (r: Result<(), BundleError>)
        requires
            logs::is_decoder(*decode),
            old(handler).ready(filter.rendering()),
        ensures
            final(handler).ready(filter.rendering()),
            final(self).names() == old(self).names(),
            final(self).inventory() == old(self).inventory(),
            final(self).noted() == old(self).noted(),
            source::continues(old(self).calls(), final(self).calls()),
            source::continues(old(handler).handled(), final(handler).handled()),
            logs::visited(
                logs::selected(
                    old(self).names(),
                    old(self).names().len() as int,
                    old(self).inventory().sleds,
                    filter.choice(),
                ),
                0,
                filter.window(),
                *decode,
                final(self).calls(),
                old(self).calls().len() as int,
                final(handler).handled(),
                old(handler).handled().len() as int,
            ) == Some(
                (
                    reader::failure(r),
                    final(self).calls().len() as int,
                    final(handler).handled().len() as int,
                ),
            ),
    {
        let names = self.source.file_names();
        let selection = filter.selection();
        let matching = logs::select_logs(&names, &self.info.sleds, &selection);
        let style = filter.style();
        logs::visit_logs(
            &mut self.source,
            &matching,
            &filter.before,
            &filter.after,
            decode,
            &style,
            handler,
        )
    }

    /// Write matching log files to `out`, applying the filter's header,
    /// list, and line-count settings.
    pub fn write_logs<F: Fn(&[u8]) -> Option<Timestamp>>(
        &mut self,
        filter: &LogFilter,
        decode: &F,
        out: &mut Vec<u8>,
    ) -> (r: Result<(), BundleError>)
        requires
            logs::is_decoder(*decode),
        ensures
            final(self).names() == old(self).names(),
            final(self).inventory() == old(self).inventory(),
            final(self).noted() == old(self).noted(),
            source::continues(old(self).calls(), final(self).calls()),
            match logs::ran(
                logs::selected(
                    old(self).names(),
                    old(self).names().len() as int,
                    old(self).inventory().sleds,
                    filter.choice(),
                ),
                0,
                filter.window(),
                *decode,
                Manner::Named,
                filter.rendering(),
                false,
                final(self).calls(),
                old(self).calls().len() as int,
                Seq::empty(),
            ) {
                Some(((halt, written), next)) => {
                    &&& final(out)@ == old(out)@ + written
                    &&& halt == Halt::Finished(reader::failure(r))
                    &&& next == final(self).calls().len()
                },
                None => false,
            },
    {
        let names = self.source.file_names();
        let selection = filter.selection();
        let matching = logs::select_logs(&names, &self.info.sleds, &selection);
        let style = filter.style();
        logs::write_visited(
            &mut self.source,
            &matching,
            &filter.before,
            &filter.after,
            decode,
            &style,
            out,
        )
    }

    /// Pipe each matching log file's content through a subprocess command.
    ///
    /// The run halts at the first log with what the command is to read;
    /// [`Bundle::resume_logs_with_command`] goes on from there.
    pub fn exec_logs_with_command<F: Fn(&[u8]) -> Option<Timestamp>>(
        &mut self,
        filter: &LogFilter,
        decode: &F,
        out: &mut Vec<u8>,
    ) -> (r: Result<Option<CommandRequest>, BundleError>)
        requires
            logs::is_decoder(*decode),
        ensures
            final(self).names() == old(self).names(),
            final(self).inventory() == old(self).inventory(),
            final(self).noted() == old(self).noted(),
            source::continues(old(self).calls(), final(self).calls()),
            ({
                let matching = logs::selected(
                    old(self).names(),
                    old(self).names().len() as int,
                    old(self).inventory().sleds,
                    filter.choice(),
                );
                match logs::ran(
                    matching,
                    0,
                    filter.window(),
                    *decode,
                    Manner::Named,
                    filter.rendering(),
                    true,
                    final(self).calls(),
                    old(self).calls().len() as int,
                    old(out)@,
                ) {
                    Some(((halt, written), next)) => {
                        &&& final(out)@ == written
                        &&& logs::halted(r, matching, halt)
                        &&& next == final(self).calls().len()
                    },
                    None => false,
                }
            }),
    {
        let names = self.source.file_names();
        let selection = filter.selection();
        let matching = logs::select_logs(&names, &self.info.sleds, &selection);
        let style = filter.style();
        logs::pipe_logs(
            &mut self.source,
            matching,
            0,
            &filter.before,
            &filter.after,
            decode,
            &style,
            true,
            out,
        )
    }

    /// Goes on with the logs behind the one that a command was given, after the
    /// command `command` ended with `outcome`.
    pub fn resume_logs_with_command<F: Fn(&[u8]) -> Option<Timestamp>>(
        &mut self,
        request: CommandRequest,
        command: &str,
        outcome: CommandOutcome,
        filter: &LogFilter,
        decode: &F,
        out: &mut Vec<u8>,
    ) -> (r: Result<Option<CommandRequest>, BundleError>)
        requires
            logs::is_decoder(*decode),
        ensures
            final(self).names() == old(self).names(),
            final(self).inventory() == old(self).inventory(),
            final(self).noted() == old(self).noted(),
            source::continues(old(self).calls(), final(self).calls()),
            match logs::command_failure(command@, request.read_failure(), outcome) {
                Some(failure) => {
                    &&& r matches Err(e) && e@ == failure
                    &&& final(out)@ == old(out)@ + logs::command_output(outcome)
                    &&& final(self).calls() == old(self).calls()
                },
                None => match logs::ran(
                    request.all_logs(),
                    request.next_log(),
                    filter.window(),
                    *decode,
                    Manner::Named,
                    filter.rendering(),
                    true,
                    final(self).calls(),
                    old(self).calls().len() as int,
                    logs::footed(
                        old(out)@ + logs::command_output(outcome),
                        filter.no_header,
                    ),
                ) {
                    Some(((halt, written), next)) => {
                        &&& final(out)@ == written
                        &&& logs::halted(r, request.all_logs(), halt)
                        &&& next == final(self).calls().len()
                    },
                    None => false,
                },
            },
    {
        let style = filter.style();
        logs::resume_logs(
            &mut self.source,
            request,
            command,
            outcome,
            &filter.before,
            &filter.after,
            decode,
            &style,
            true,
            out,
        )
    }
}

} // verus!
