// Ranking of symbol sequences by how well an order-k Markov context model,
// trained on a reference sequence, predicts them: the model's counts, the
// alphabet sizes the score is normalised by, the database format the
// candidates come in, and the stable order of the results.

pub mod alphabet;
pub mod model;
pub mod parse;
pub mod rank;
