# opensqlany

A verified reader for SAP SQL Anywhere page stores (SA17, build 2182).

`src/` is the library. Every function states in a contract what it returns,
and Verus proves it:

| module | what it holds |
| --- | --- |
| `store`, `page`, `superblock`, `error` | page stores, their pages, size checks |
| `slotted` | slot directories and the rows they point at |
| `page_links` | page-link blocks and bounded walks along them |
| `page_permutation` | the in-place sector permutation |
| `materialized_page` | materialized type-4 table pages |
| `row_segment` | physical row segments and continuation chains |
| `schema`, `value`, `field`, `row_decoder`, `decode_error` | typed rows |
| `date`, `decimal` | dates and exact decimals |
| `bytes`, `text` | little-endian integers, text rendering |

What a whole module promises stands at its end under *Laws*, as public proof
functions.

`app/` opens files and gives the library's failures the standard error traits.
`tests/` runs the library on concrete values.
