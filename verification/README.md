# deltaml

Decision trees and random forests for classification, with their growing,
splitting, voting and prediction logic proved in Verus.

* `src/` is the verified library. Feature values are handled as *keys*:
  integers ordered as the values they stand for. How impure a group of
  samples is, and how good a split is, comes from two loss functions that the
  caller passes to `fit`; their results are loss keys too.
  - `arrays`: the `ndarray` arrays the models keep (sample indices, labels,
    feature keys), behind small trusted wrappers.
  - `counting`: class counts and a most frequent class.
  - `tree`: tree nodes, routing a row to a leaf, prediction.
  - `splits`: candidate splits, their scores, the best one; a split sends
    left the samples whose key is below its threshold and is scored so;
    sorting samples by key (std's sort, behind a trusted wrapper).
  - `decision_tree`: growing a tree, scoring splits with one sorted sweep
    per feature; the laws a grown tree obeys.
  - `exact_fit`: when a deep enough tree gives back every training label.
  - `determinism`: a grown tree is fixed by its data, up to ties between
    equally frequent labels, when the losses depend on the counts alone.
  - `sampling`: bootstrap indices drawn with `rand`.
  - `forest`: trees on bootstrap samples, majority vote.
* `app/` is the floating-point side: linear and logistic regression, the
  entropy losses, and the conversion of float features to keys, wrapping the
  verified models in an `ndarray`/`Float` interface.
* `tests/` runs the models, including on the iris data set.
