//! The commands on an archive whose entries are found by their position, with
//! an inventory that every sled must be complete in.
use crate::bundle::{EreportListFilter, EreportShowFilter, LogFilter};
use crate::cat;
use crate::ereport;
use crate::ereport::Access;
use crate::error::BundleError;
use crate::inventory;
use crate::inventory::{Decoded, Layout};
use crate::listing;
use crate::logs;
use crate::logs::{Halt, Halted, Manner};
use crate::names;
use crate::pattern::Pattern;
use crate::reader;
use crate::sled::BundleInfo;
use crate::source;
use crate::source::{BundleSource, SourceCall};
use crate::time::Timestamp;
use vstd::prelude::*;

verus! {

impl BundleInfo {
    /// Reads the inventory of an archive, with the warning that came up. Zones
    /// and services are inferred from the depth of the paths.
    pub fn from_archive<S: BundleSource + ?Sized, D: Fn(&[u8], bool) -> Decoded>(
        archive: &mut S,
        decode: &D,
    ) -> (r: Result<(BundleInfo, Option<String>), BundleError>)
        requires
            inventory::is_complete(old(archive).names()),
            inventory::is_decoder(*decode),
        ensures
            final(archive).names() == old(archive).names(),
            source::continues(old(archive).calls(), final(archive).calls()),
            forall|h: Seq<SourceCall>|
                source::continues(final(archive).calls(), h)
                    ==> #[trigger] inventory::inventory_read(
                    old(archive).names(),
                    Layout::Depth,
                    *decode,
                    h,
                    old(archive).calls().len() as int,
                ) == Some((inventory::warned(r), final(archive).calls().len() as int)),
    {
        inventory::read_inventory(archive, Layout::Depth, decode)
    }
}

/// Lists the ereports of an archive.
pub fn exec_ereports_list<S: BundleSource + ?Sized>(
    archive: &mut S,
    args: &EreportListFilter,
    out: &mut String,
) -> (r: Result<(), BundleError>)
    ensures
        final(archive).names() == old(archive).names(),
        source::continues(old(archive).calls(), final(archive).calls()),
        ({
            let all = ereport::candidates(
                old(archive).names(),
                old(archive).names().len() as int,
                args.part@,
                args.serial@,
                Access::Positional,
            );
            let width = ereport::ena_width(all);
            match ereport::walked(
                all,
                0,
                args.class@,
                Access::Positional,
                final(archive).calls(),
                old(archive).calls().len() as int,
                Seq::empty(),
            ) {
                Some(((kept, failure), next)) => {
                    &&& final(out)@ == old(out)@ + ereport::list_heading(width)
                        + ereport::list_rows(kept, width)
                    &&& failure == reader::failure(r)
                    &&& next == final(archive).calls().len()
                },
                None => false,
            }
        }),
{
    ereport::list_reports(
        archive,
        args.part.as_slice(),
        args.serial.as_slice(),
        args.class.as_slice(),
        Access::Positional,
        out,
    )
}

/// Shows the ereports of an archive.
pub fn exec_ereports_show<S: BundleSource + ?Sized>(
    archive: &mut S,
    args: &EreportShowFilter,
    out: &mut String,
) -> (r: Result<(), BundleError>)
    ensures
        final(archive).names() == old(archive).names(),
        source::continues(old(archive).calls(), final(archive).calls()),
        match ereport::walked(
            ereport::candidates(
                old(archive).names(),
                old(archive).names().len() as int,
                args.part@,
                args.serial@,
                Access::Positional,
            ),
            0,
            args.class@,
            Access::Positional,
            final(archive).calls(),
            old(archive).calls().len() as int,
            Seq::empty(),
        ) {
            Some(((kept, failure), next)) => {
                &&& final(out)@ == old(out)@ + ereport::blocks(kept, args.no_header)
                &&& failure == reader::failure(r)
                &&& next == final(archive).calls().len()
            },
            None => false,
        },
{
    ereport::show_reports(
        archive,
        args.part.as_slice(),
        args.serial.as_slice(),
        args.class.as_slice(),
        Access::Positional,
        args.no_header,
        out,
    )
}

/// Writes the logs of an archive.
pub fn exec_logs<S: BundleSource + ?Sized, F: Fn(&[u8]) -> Option<Timestamp>>(
    archive: &mut S,
    bundle_info: &BundleInfo,
    args: &LogFilter,
    decode: &F,
    out: &mut Vec<u8>,
) -> (r: Result<(), BundleError>)
    requires
        cat::all_known(old(archive).names(), bundle_info@.sleds),
        logs::is_decoder(*decode),
    ensures
        final(archive).names() == old(archive).names(),
        source::continues(old(archive).calls(), final(archive).calls()),
        logs::ran(
            logs::selected(
                old(archive).names(),
                old(archive).names().len() as int,
                bundle_info@.sleds,
                args.choice(),
            ),
            0,
            args.window(),
            *decode,
            Manner::Bare,
            args.rendering(),
            false,
            final(archive).calls(),
            old(archive).calls().len() as int,
            old(out)@,
        ) == Some(
            (
                (Halt::Finished(reader::failure(r)), final(out)@),
                final(archive).calls().len() as int,
            ),
        ),
{
    let names = archive.file_names();
    let selection = args.selection();
    let matching = logs::select_logs(&names, &bundle_info.sleds, &selection);
    let style = args.style();
    match logs::run_logs(
        archive,
        &matching,
        0,
        &args.before,
        &args.after,
        decode,
        Manner::Bare,
        &style,
        false,
        out,
    ) {
        Halted::Finished(r) => r,
        Halted::Command { .. } => Ok(()),
    }
}

/// Lists the services of the selected sleds.
pub fn exec_services(bundle_info: &BundleInfo, sled: &[Pattern], out: &mut String)
    ensures
        final(out)@ == old(out)@ + listing::lines(
            names::sorted(listing::services_of(bundle_info@.sleds, sled@)),
        ),
{
    listing::write_services(bundle_info, sled, out)
}

/// Lists the sleds, and the unhealthy ones.
pub fn exec_sleds(bundle_info: &BundleInfo, out: &mut String)
    ensures
        final(out)@ == old(out)@ + listing::sled_table(bundle_info@.sleds)
            + listing::unhealthy_table(bundle_info@.unhealthy),
{
    listing::write_health(bundle_info, out)
}

/// Lists the zones of the selected sleds.
pub fn exec_zones(bundle_info: &BundleInfo, sled: &[Pattern], out: &mut String)
    ensures
        final(out)@ == old(out)@ + listing::lines(
            names::sorted(listing::zones_of(bundle_info@.sleds, sled@)),
        ),
{
    listing::write_zones(bundle_info, sled, out)
}

} // verus!
