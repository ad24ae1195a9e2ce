# gbmj

Scoring for Guobiao (Chinese official) mahjong, written in Verus: every
function of the library carries a contract and is verified.

- `tiles` — the 34 tile kinds, counts, names, hand notation (`123m 东东`).
- `model` — melds (chi, pon, kan) and whether they break a concealed hand.
- `decompose` — the standard shape (sets and a pair) and the special shapes.
- `fans` — pattern recognition, exclusions, and totals for the four ways of
  winning.
- `calc` — analysis of a waiting hand: the tiles that complete it and the
  best points for each.
- `plan` — for a hand not yet waiting, how many tiles it lacks for each
  pattern, with the tiles to draw and to discard.
- `board` — the input panel of a graphical front end (clicks that keep every
  tile within four copies).
- `cli` — the command line.

`app/` is the command-line program around the library.
