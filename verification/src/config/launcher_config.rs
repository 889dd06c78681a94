//! The launcher's own settings.

use vstd::prelude::*;

verus! {

/// The shadow map size that the game uses when none is given.
pub const DEFAULT_SHADOW_MAP_SIZE: u32 = 2048;

/// The language code that the launcher starts with.
pub open spec fn default_language_code() -> Seq<char> {
    seq!['e', 'n']
}

/// The settings of the launcher.
#[derive(Debug, Clone)]
pub struct LauncherConfig {
    /// Whether to start the AVX build of the game.
    pub use_avx: bool,
    /// Whether to start the game in debug mode.
    pub debug_mode: bool,
    /// The shadow map size to ask the game for.
    pub shadow_map_size: u32,
    /// Further arguments for the game, separated by whitespace.
    pub custom_args: String,
    /// The game directory, if the user has set one.
    pub game_root: Option<String>,
    /// The language of the launcher.
    pub language: String,
    /// The command that starts the game on Linux, if the user has set one.
    pub linux_custom_command: Option<String>,
}

/// The shadow map size that a settings file without one stands for.
pub fn default_shadow_map_size() -> (r: u32)
    ensures
        r == DEFAULT_SHADOW_MAP_SIZE,
{
    DEFAULT_SHADOW_MAP_SIZE
}

/// The language that a settings file without one stands for.
pub fn default_language() -> (r: String)
    ensures
        r@ == default_language_code(),
{
    proof {
        reveal_strlit("en");
    }
    let r = "en".to_owned();
    assert(r@ =~= default_language_code());
    r
}

impl Default for LauncherConfig {
    fn default() -> (r: Self)
        ensures
            !r.use_avx,
            !r.debug_mode,
            r.shadow_map_size == DEFAULT_SHADOW_MAP_SIZE,
            r.custom_args@ == Seq::<char>::empty(),
            r.game_root is None,
            r.language@ == default_language_code(),
            r.linux_custom_command is None,
    {
        LauncherConfig {
            use_avx: false,
            debug_mode: false,
            shadow_map_size: DEFAULT_SHADOW_MAP_SIZE,
            custom_args: String::new(),
            game_root: None,
            language: default_language(),
            linux_custom_command: None,
        }
    }
}

} // verus!
