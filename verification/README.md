# bundle_cat

Filter and extract logs, ereports, sled information and zone or service lists
from Oxide rack support bundles. The library in `src/` is verified with Verus.

A bundle is read through a `BundleSource`: it lists names, opens a file, reads
it piece by piece, and reports metadata. Two things are assumed of a source: its
listing never changes, and a read returns no more than was asked for. Nothing
else is assumed of what it answers. It keeps a ghost record of every request and its answer, and the
contracts state, for every record, which requests were made and what came of
the answers: the inventory, the listing, the error message, the bytes written.

| module | what it holds |
| --- | --- |
| `bundle` | the handle to a parsed bundle: structured access and text output |
| `cat` | the same with borrowed filters, and commands that logs are piped through |
| `archive` | the commands on an archive whose entries are found by position |
| `structured` | narrow parsers with a strict grammar |
| `inventory` | sleds, zones and services, inferred from names and read from records |
| `ereport` | ereport paths and classes, and walks over selected ereports |
| `logs`, `log_file` | selection of logs, the time of a log, and walks over logs |
| `listing` | the listings of sleds, services and zones |
| `reader` | reading a file whole, up to a limit, as text, or by lines |
| `source`, `directory` | the source trait and its record; the index of an unpacked bundle |
| `sled`, `names`, `pattern`, `time`, `text`, `error` | the values that the rest is made of |
| `laws` | what holds of all inputs and of every answer |
| `stored` | what holds while the files of a source stay as they are |

Calls into `glob`, `jiff`, `bstr` and `serde_json` stand behind small trusted
functions, each with a comment that says what is believed of the call. JSON that
is decoded into types of the library is decoded by the caller, which hands the
decoder in.

`app/` is the program around the library: the command line, zip archives,
directory trees, child processes and the JSON decoders.
