# ais-analytics

Paste a correlation id, see every step it touched. Pointed at an Azure Log
Analytics workspace, the app works out from the data which column ties the
steps of one flow together, then draws where a value got to and where it
didn't.

The library under `src/` is written in Verus: what each function returns is
stated in its contract and proved. What holds of the library as a whole stands
beside the functions as public proof functions.

| Part | Modules |
| --- | --- |
| Texts, order, JSON, time | `text`, `order`, `batch`, `dsu`, `json`, `clock` |
| Queries and answers | `loganalytics`, `schema` |
| What ties steps together | `discover`, `linking`, `keys` |
| One value's path | `trace`, `lanes` |
| What fails, and how often | `exceptions`, `signals`, `logs` |
| Azure CLI, files, updates | `az`, `history`, `cache`, `update_check`, `clipboard`, `instances` |
| What the screens decide | `home`, `welcome`, `exceptions_view`, `logs_view`, `signals_view` |

`app/` is the desktop app around it: HTTP, files, processes, the clipboard and
the Dioxus screens. It hands the library plain values and shows what comes
back.

Shares, ratios and spreads are whole numbers throughout: a share is counted in
parts of a fixed whole, a gap in half milliseconds. Floating point appears only
where the app prints a number.

What is believed rather than proved is what `serde_json`, `chrono` and a few
functions of `std` do. Each such item says above it what it claims.
