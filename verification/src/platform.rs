//! The operating systems a configuration can speak of.

use crate::text::same;
use vstd::prelude::*;

verus! {

#[derive(Debug, Clone, Copy, PartialEq, Eq, Hash, Structural)]
pub enum Platform {
    Windows,
    Linux,
    Macos,
}

impl Platform {
    /// The key of the platform in a configuration.
    pub open spec fn key(self) -> Seq<char> {
        match self {
            Platform::Windows => "windows"@,
            Platform::Linux => "linux"@,
            Platform::Macos => "macos"@,
        }
    }

    /// The name of the platform for people.
    pub open spec fn title(self) -> Seq<char> {
        match self {
            Platform::Windows => "Windows"@,
            Platform::Linux => "Linux"@,
            Platform::Macos => "macOS"@,
        }
    }

    /// The platform with the given key, if there is one.
    pub open spec fn of_key(key: Seq<char>) -> Option<Platform> {
        if key == "windows"@ {
            Some(Platform::Windows)
        } else if key == "linux"@ {
            Some(Platform::Linux)
        } else if key == "macos"@ {
            Some(Platform::Macos)
        } else {
            None
        }
    }

    /// The platform of a machine whose operating system goes by the name `os`;
    /// `None` for a system that is not supported.
    pub fn current(os: &str) -> (r: Option<Platform>)
        ensures
            r == Platform::of_key(os@),
    {
        if same(os, "windows") {
            Some(Platform::Windows)
        } else if same(os, "linux") {
            Some(Platform::Linux)
        } else if same(os, "macos") {
            Some(Platform::Macos)
        } else {
            None
        }
    }

    pub fn as_str(&self) -> (r: &'static str)
        ensures
            r@ == self.key(),
    {
        match self {
            Platform::Windows => "windows",
            Platform::Linux => "linux",
            Platform::Macos => "macos",
        }
    }

    pub fn label(&self) -> (r: &'static str)
        ensures
            r@ == self.title(),
    {
        match self {
            Platform::Windows => "Windows",
            Platform::Linux => "Linux",
            Platform::Macos => "macOS",
        }
    }
}

/// A platform is found again by its key.
pub proof fn platform_key_round_trip(p: Platform)
    ensures
        Platform::of_key(p.key()) == Some(p),
{
    reveal_strlit("windows");
    reveal_strlit("linux");
    reveal_strlit("macos");
    assert("windows"@.len() == 7 && "linux"@.len() == 5 && "macos"@.len() == 5);
    assert("linux"@[0] == 'l' && "macos"@[0] == 'm');
}

/// Different platforms have different keys.
pub proof fn platform_keys_distinct(p: Platform, q: Platform)
    requires
        p != q,
    ensures
        p.key() != q.key(),
{
    platform_key_round_trip(p);
    platform_key_round_trip(q);
}

/// The name of a platform is its key with some letters in upper case.
pub proof fn title_spells_key(p: Platform, i: int)
    requires
        0 <= i < p.key().len(),
    ensures
        p.title().len() == p.key().len(),
        p.title()[i] == p.key()[i] || p.title()[i] as u32 + 32 == p.key()[i] as u32,
{
    reveal_strlit("windows");
    reveal_strlit("linux");
    reveal_strlit("macos");
    reveal_strlit("Windows");
    reveal_strlit("Linux");
    reveal_strlit("macOS");
}

} // verus!
