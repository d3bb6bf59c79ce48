# slot_logic

Verified building blocks of a slot-machine game server, written in Verus.

- `sampling`: weighted draws without replacement (`WeightPool`,
  `weight_sample_index_from_vec`), equal-chance `sample`, `bisect_left`.
- `text`: `str::split`-style splitting, `i64` parsing and decimal printing.
- `table`, `reel`: weight tables `label-weight;...`, weighted label choice and
  reel strips (`cut_reel`).
- `paytable`, `lines`, `allways`, `scatter`: scoring of paylines, all-ways and
  scatters against a paytable.
- `progress`: the text of a console progress bar.
- `data`: a player's data and a spin result.

`app/` holds what Verus does not see: reading a JSON calculator into a
`Paytable`, the JSON accessors, the request type that carries trait objects,
printing, and float helpers.
