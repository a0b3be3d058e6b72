use vstd::prelude::*;
use vstd::string::StringSliceAdditionalSpecFns;

use crate::minesweeper::provider::greev::greev_provider::GreevProvider;
use crate::minesweeper::provider::mcplayhd::mcplay_provider::McPlayHdProvider;

verus! {

/// The game-data providers the application can query. Fetching itself
/// is network work and lives outside the library; here each provider
/// carries its identifier and display name.
pub enum EnumProviders {
    Greev(GreevProvider),
    McPlayHd(McPlayHdProvider),
}

impl EnumProviders {
    /// The identifier used in request paths.
    pub fn id(&self) -> (r: &'static str)
        ensures
            self matches EnumProviders::Greev(_) ==> r@ == "greev"@,
            self matches EnumProviders::McPlayHd(_) ==> r@ == "mcplayhd"@,
    {
        match self {
            EnumProviders::Greev(provider) => provider.id(),
            EnumProviders::McPlayHd(provider) => provider.id(),
        }
    }

    /// The human-readable provider name.
    pub fn name(&self) -> (r: &'static str)
        ensures
            self matches EnumProviders::Greev(_) ==> r@ == "Greev"@,
            self matches EnumProviders::McPlayHd(_) ==> r@ == "McPlayHD"@,
    {
        match self {
            EnumProviders::Greev(provider) => provider.name(),
            EnumProviders::McPlayHd(provider) => provider.name(),
        }
    }
}

/// A provider's reply: the encoded replay plus auxiliary metadata that
/// the core only passes through.
pub struct ApiData {
    pub game_data: Option<String>,
    pub tiepe: Option<String>,
    pub time: u64,
    pub generator: Option<String>,
    pub uuid: String,
    pub correct_flags: Option<u32>,
    pub incorrect_flags: Option<u32>,
    pub won: bool,
}

/// A player-name lookup reply.
pub struct PlayerData {
    pub name: String,
}

/// Whether a provider request may proceed: an API key is present and
/// not empty.
pub fn api_key_ok(key: Option<&String>) -> (r: bool)
    ensures
        r <==> (key matches Some(k) && k@.len() > 0),
{
    match key {
        Some(k) => !k.as_str().is_empty(),
        None => false,
    }
}

} // verus!
