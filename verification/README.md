# fastest_numbers

Finding the shortest way to say a number: plain number words from a dictionary,
checked `i32` arithmetic for the operator words ("squared", "times", ...), and two
searches for spoken forms with fewer syllables.

- `src/` is the verified library (Verus):
  - `language/`: number words composed by language rules (English, Dutch);
  - `syllables/`: the dictionary of number and operator words and the plain words of a number;
  - `math/expression.rs`, `math/math.rs`: operators and expression trees, with their laws;
  - `math/optimize.rs`: the table of best ways to say every number of a range;
  - `math/uniform_cost_search.rs`: the search for a way to say one number in a given
    number of syllables;
  - `math/export.rs`, `math/stats.rs`: results ordered for writing, and their summary figures;
  - `math/integer.rs`, `math/digits.rs`: integer roots, powers and decimal text.
- `app/` is the program around it: reading dictionaries (JSON), writing results, printing
  statistics.
- `tests/` holds the tests.
