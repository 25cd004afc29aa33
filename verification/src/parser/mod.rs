pub mod extract;
pub mod grammar;
pub mod model;
pub mod score;
pub mod values;

pub use grammar::MusicParser;
pub use model::{flatten_beam, Accidental, BarlineType, BeamElement, Note, ScoreEvent};
pub use score::{parse_and_extract, score_durations_fit};
