//! Where the game is: the rule that picks the game directory from what was
//! found on disk. Looking at the disk is the caller's part.

use vstd::prelude::*;

verus! {

/// What was found while looking for the game directory.
#[derive(Debug, Clone, Copy)]
pub struct RootProbe {
    /// Whether the environment names a game directory.
    pub env_set: bool,
    /// Whether the directory that the environment names exists.
    pub env_is_dir: bool,
    /// Whether the settings name a game directory.
    pub config_set: bool,
    /// Whether the directory that the settings name exists and holds `gamedata`.
    pub config_valid: bool,
    /// Whether the launcher's directory holds `gamedata`.
    pub launcher_has_gamedata: bool,
    /// Whether the launcher's directory has a parent that holds `gamedata`.
    pub parent_has_gamedata: bool,
}

/// The directory that is taken as the game directory.
#[derive(Debug, Clone, Copy, PartialEq, Eq, Structural)]
pub enum GameRoot {
    /// The directory that the environment names.
    Environment,
    /// The directory that the settings name.
    Config,
    /// The launcher's own directory.
    LauncherDir,
    /// The parent of the launcher's directory.
    LauncherParent,
}

/// Why no game directory could be taken.
#[derive(Debug, Clone, Copy, PartialEq, Eq, Structural)]
pub enum RootError {
    /// The environment names a directory that does not exist.
    EnvironmentNotADirectory,
    /// None of the places holds the game.
    NotFound,
}

/// The game directory for what was found. The environment decides alone
/// where it names a directory; then come the settings, the launcher's
/// directory and its parent, the first of them that holds the game.
pub open spec fn choose_root(p: RootProbe) -> Result<GameRoot, RootError> {
    if p.env_set {
        if p.env_is_dir {
            Ok(GameRoot::Environment)
        } else {
            Err(RootError::EnvironmentNotADirectory)
        }
    } else if p.config_set && p.config_valid {
        Ok(GameRoot::Config)
    } else if p.launcher_has_gamedata {
        Ok(GameRoot::LauncherDir)
    } else if p.parent_has_gamedata {
        Ok(GameRoot::LauncherParent)
    } else {
        Err(RootError::NotFound)
    }
}

/// The game directory for what was found.
pub fn resolve_game_root(probe: &RootProbe) -> (r: Result<GameRoot, RootError>)
    ensures
        r == choose_root(*probe),
{
    if probe.env_set {
        if probe.env_is_dir {
            return Ok(GameRoot::Environment);
        }
        return Err(RootError::EnvironmentNotADirectory);
    }
    if probe.config_set && probe.config_valid {
        return Ok(GameRoot::Config);
    }
    if probe.launcher_has_gamedata {
        return Ok(GameRoot::LauncherDir);
    }
    if probe.parent_has_gamedata {
        return Ok(GameRoot::LauncherParent);
    }
    Err(RootError::NotFound)
}

} // verus!
