# kcd_dice

Scoring and combinatorics for the dice game of Kingdom Come: Deliverance II, with weighted
dice.

The library (`src/`) is verified:

- `scoring`: points of a throw (`calc_score`, `score_for_face_count`), face counts and busts
  (`is_bust`), with laws relating them (a throw is a bust exactly when it scores nothing;
  every straight shows a five; without a straight the score is the sum over the faces; each
  die beyond the third of a kind doubles its points).
- `bust_states`, `straights`: the state machines that the bust and straight probability
  computations step through, with laws that they track exactly the bust throws and the
  straights (for devil's dice: the jokers fill exactly the missing numbers).
- `histogram`: keys of face histograms and their text form.
- `dice`: weighted dice, expanding a set of dice into six, selecting and describing sets.
- `search`: every candidate set of six dice from a stock, in search order, with a law that
  the list holds each valid selection exactly once, in lexicographic order.
- `render`: pixel coordinates as faces, and the classification that colours a throw.
- `text`: decimal numerals and joined lists.
- `weights`: weights of throws (products of integer face weights) and the law that summing
  weights state by state, one die at a time, gives the weight of the throws ending in each
  state; applied to the bust states, the straight states (with and without devil's dice),
  the histogram keys and the count of dice showing a face, it shows that this way of
  summing, in exact arithmetic, gives the weights of busts, straights, histograms and
  counts. The floating-point sums in `app/` follow the same steps but are not themselves
  verified.

The program (`app/`) computes the probabilities in floating point on top of these
functions, searches for the best set of dice, prints the distributions and can render the
picture of all throws with the `image` crate.
