# eve_orm

Records of the EVE Online universe (galaxies, regions, constellations,
stargates and solar systems) and the search of them by name.

- `src/` is the verified library: the name search (`text`, `ranking`, and the
  `search` of each kind of record), the linking of each table's rows to their
  parents (`link`, `index_by_id`), the grouping of stargates by the system they
  leave, and the laws that these obey.
- `app/` is the program around it: it reads the tables from the SQLite file
  with `rusqlite`, hands the rows to the library, and prints a few systems.
  Solar systems carry floating-point coordinates, so their type stays there.
