# Algoritmer og datastrukturer, verifisert

Et bibliotek med klassiske algoritmer og datastrukturer, der hver funksjon
har en kontrakt (`requires` / `ensures`) som Verus beviser.

- `src/` er biblioteket:
  - `aksjer`: beste kjøps- og salgsdag for en rekke kursendringer.
  - `sortering`: shellsort med gitte avstander.
  - `langetall`: store tall som lister av sifre, med addisjon og subtraksjon.
  - `hashtabell`, `navnetabell`: hashtabeller med lenkede lister, og med
    åpen adressering og dobbel hashing.
  - `grafkomponenter`, `kosaraju`: dybde-først-søk og sterkt koblede
    komponenter.
  - `avstand`, `dijkstra`: korteste avstander i en vektet graf.
  - `minheap`, `veinett`: en min-heap med endring av vekter, og raskeste vei
    i et veinett.
  - `lz77`, `huffman`, `bytetelling`: komprimering og dekomprimering.
  - `tekst`: oppdeling av linjer i ord og tolking av tall.
  - `lenket`: en node i en dobbelt lenket liste.
- `tests/` kjører biblioteket på konkrete verdier.
- `app/` er programmene rundt biblioteket: lesing av filer og argumenter,
  utskrift, tidtaking, tilfeldige tall og det som regner med flyttall.
  Programmet velges med første argument, for eksempel
  `grafkomponenter ø6g1` eller `dijkstra vg4 1`.
