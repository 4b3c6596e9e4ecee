//! The bot conformance tester's state: which colour the tested bot plays
//! and where its executable lives.  The process handling and the golden
//! output comparison sit outside the library.

use crate::controller::Color;
use std::path::PathBuf;
use vstd::prelude::*;

verus! {

/// Relies on std::path::PathBuf only as an opaque value to carry through.
#[verifier::external_type_specification]
#[verifier::external_body]
pub struct ExPathBuf(PathBuf);

/// A conformance test run against one bot executable.
pub struct BotTest {
    color: Color,
    bot_path: PathBuf,
}

impl BotTest {
    pub closed spec fn spec_color(self) -> Color {
        self.color
    }

    pub closed spec fn spec_path(self) -> PathBuf {
        self.bot_path
    }

    pub fn new(color: Color, bot_path: PathBuf) -> (t: BotTest)
        ensures
            t.spec_color() == color,
            t.spec_path() == bot_path,
    {
        BotTest { color, bot_path }
    }

    /// Whether the tested bot plays White.
    pub fn is_white(&self) -> (r: bool)
        ensures
            r == (self.spec_color() == Color::White),
    {
        self.color == Color::White
    }

    /// The colour-name argument the bot executable is started with.
    pub fn color_str(&self) -> (r: &'static str)
        ensures
            self.spec_color() == Color::White ==> r@ == "white"@,
            self.spec_color() == Color::Black ==> r@ == "black"@,
    {
        if self.is_white() {
            "white"
        } else {
            "black"
        }
    }
}

} // verus!
