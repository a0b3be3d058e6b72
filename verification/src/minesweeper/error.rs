use vstd::prelude::*;

verus! {

/// Every failure the library can report, as one classified value.
/// Parsing and rendering are fail-fast: the first failure is returned
/// and no partial output is produced.
#[derive(Clone, Copy, Debug, PartialEq, Eq, Structural)]
pub enum MinesweeperError {
    /// The animated-image encoder rejected a frame or its setup.
    GifEncoding,
    /// A glyph could not be composited into the canvas.
    ImageInsertion,
    /// The animated path produced zero frames.
    NoFrames,
    /// The provider's reply could not be read as game data.
    ApiDataParse,
    /// No game data was found for the requested game.
    GameDataNotFound,
    /// The replay text could not be parsed.
    DataParseError,
    /// The provider requires an API key and none was given.
    ApiKeyNotFound,
    /// No parser declares the version tag found in the input.
    UnsupportedVersion,
    /// The still or animated image could not be rendered.
    ImageRender,
    /// A decoded numeral does not fit the machine integer that holds it.
    DataParse,
    /// A character outside the numeral alphabet was found.
    Decode,
    /// A delimiter is missing, a literal is not numeric, or a
    /// coordinate lies outside the board.
    MalformedField,
    /// A flag action code that this format version does not support.
    UnsupportedAction,
}

} // verus!
