# gridlook

Metadata previews of gridded scientific data — netCDF/HDF5 files, Zarr v2
and v3 stores, Icechunk repositories and GRIB files — as `ncdump`-style CDL
text or an xarray-style HTML repr, plus the `gridlook dump` command.

The library under `src/` is written in Verus: each function carries a
contract, and Verus proves the code against it.

| Module | What it holds |
| --- | --- |
| `model` | The format-agnostic summary: groups, variables, dimensions, attributes, storage details |
| `group` | Building a group from its parts: coordinate classification, ordering, derived dimensions |
| `tree` | Rebuilding a group tree from a flat list of nodes keyed by path |
| `flat` | Path prefixes: the child groups a flat node list shows |
| `zarr` | Zarr keys and node paths, dimension names, v2 typestrings, consolidated metadata, storage reports, the walk guard |
| `store` | An in-memory key/value store with directory listing |
| `json` | JSON attribute values, and base64-packed fill values |
| `dispatch` | Which reader a local path goes to; source names |
| `icechunk` | Recognizing a repository, and its refs |
| `nctype` | netCDF type and format names, HDF5 pipeline details |
| `grib` | Reassembling GRIB messages into variables and coordinates |
| `cdl` | CDL rendering: names, literals, types, special attributes |
| `html` | HTML pieces: escaping, ids, sections, the text fallback, footer and version card |
| `repr` | The xarray-style HTML repr of a summary and the page around it |
| `remote` | Remote sources: access options, the S3 region, the order of probes |
| `cli` | The `dump` command's arguments and messages |
| `text`, `decimal`, `floatfmt`, `order` | Strings, decimal digits, float text, sorting |

`app/` is the program around the library: argument parsing, file and
object-store access, and the readers that call libnetcdf, `zarrs_metadata`
and `gribberish`. It hands the library plain values and prints what comes
back.
