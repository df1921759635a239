# wheels_router_nano

A multi-modal trip planner over a compact timetable, written and verified in Verus.

A build turns a GTFS feed and, if there is one, an OpenStreetMap extract into one timetable file. A
router loads that file and answers requests from one coordinate to another with plans: walks, rides
and changes.

## Layout

- `src/` is the verified library.
  - `archive`, `table`, `gtfs`, `feed`, `feed_laws`: the feed, from the zip file to its tables.
  - `calendar`, `pattern`, `transfers`: calendars, routes with their trips, footpaths.
  - `osm`, `osm_xml`, `streets`, `walk`, `walk_laws`: street networks, pruned, contracted and linked
    to stops.
  - `message`, `output`, `loader`, `storage`: what a timetable file holds, and that it is read back.
  - `file`, `records`, `columns`: the bytes of a timetable file. It is a Cap'n Proto message whose
    root is a list of lists: for each table one of numbers and one of byte blocks.
  - `data`, `raptor`, `raptor_model`: the timetable and the round-based search over it.
  - `raptor_laws`, `raptor_sound`, `raptor_complete`: what holds of the journeys found.
  - `walker`, `planner`, `plan_laws`, `viz`, `request`, `router`, `types`: walks, plans, requests.
  - `text`, `grid`, `heap`, `lists`: tools.
- `app/` builds timetable files and serves requests. It opens files, reads and writes JSON, and does
  the arithmetic on distances, which is in floating point. The library takes coordinates as the bits
  of 64-bit numbers and distances as whole metres.
- `tests/` runs the library.

## Timetable files

A file is a Cap'n Proto message whose root is a list of 22 lists: for each table, in this order, a
`List(UInt32)` and a `List(Data)`. A row of a table takes the numbers and the blocks named here.
Coordinates are the bits of 64-bit numbers, as two numbers, the higher one first. Lists inside a row
are packed into a block, four bytes a number, the lowest first.

| Table | Numbers | Blocks |
|---|---|---|
| header, one row | | feed id, time zone, packed arrivals, packed departures |
| agencies | | id, name, url |
| stops | latitude, longitude, location type, parent, first footpath, number of footpaths, street node | id, name, platform, zone, routes |
| routes | type, color, text color, agency, first time, number of trips | id, short name, long name, stops, trips |
| footpaths | stop, seconds, metres | |
| services | first day | id, days |
| trips | route, service, direction, first departure of the template | id, headsign, rules |
| fares | route, price | origin zone, destination zone, currency |
| street nodes | latitude, longitude, first edge, number of edges | |
| street edges | node, metres, first point, number of points | |
| points | latitude, longitude | |

## Requests

| Parameter | Required | Description |
|---|---|---|
| `origin` | yes | `"lat,lon"` |
| `destination` | yes | `"lat,lon"` |
| `depart_at` | no | ISO 8601 departure time (UTC) |
| `max_results` | no | most plans to return, 15 if not given |
| `max_transfers` | no | most transfers allowed, 3 if not given |
| `max_walk_distance` | no | longest walk to or from a stop in metres, 1600 if not given |
| `walking_speed` | no | `"slow"`, `"normal"`, `"fast"`, or metres per second |
