use vstd::prelude::*;
use vstd::pervasive::VecAdditionalExecFns;

verus! {

use crate::token::TokenType;

/// The built-in default classification of a byte, used wherever the
/// catcode table holds no override: `\` escape, `{`/`}` grouping, `$` math
/// shift, `&` alignment tab, newline end-of-line, `#` parameter, `^`
/// superscript, `_` subscript, NUL and CR ignored, space and tab spaces,
/// ASCII letters letters, `~` active, `%` comment, DEL invalid, and
/// everything else (including every byte above 127) other.
pub open spec fn default_catcode_spec(b: u8) -> TokenType {
    if b == 0x5c {
        TokenType::Escape
    } else if b == 0x7b {
        TokenType::BeginGroup
    } else if b == 0x7d {
        TokenType::EndGroup
    } else if b == 0x24 {
        TokenType::MathShift
    } else if b == 0x26 {
        TokenType::AlignTab
    } else if b == 0x0a {
        TokenType::Eol
    } else if b == 0x23 {
        TokenType::Parameter
    } else if b == 0x5e {
        TokenType::Superscript
    } else if b == 0x5f {
        TokenType::Subscript
    } else if b == 0x00 || b == 0x0d {
        TokenType::Ignored
    } else if b == 0x20 || b == 0x09 {
        TokenType::Space
    } else if (0x41 <= b && b <= 0x5a) || (0x61 <= b && b <= 0x7a) {
        TokenType::Letter
    } else if b == 0x7e {
        TokenType::Active
    } else if b == 0x25 {
        TokenType::Comment
    } else if b == 0x7f {
        TokenType::Invalid
    } else {
        TokenType::Other
    }
}

/// Executable counterpart of [`default_catcode_spec`].
pub fn default_catcode(b: u8) -> (t: TokenType)
    ensures
        t == default_catcode_spec(b),
{
    if b == 0x5c {
        TokenType::Escape
    } else if b == 0x7b {
        TokenType::BeginGroup
    } else if b == 0x7d {
        TokenType::EndGroup
    } else if b == 0x24 {
        TokenType::MathShift
    } else if b == 0x26 {
        TokenType::AlignTab
    } else if b == 0x0a {
        TokenType::Eol
    } else if b == 0x23 {
        TokenType::Parameter
    } else if b == 0x5e {
        TokenType::Superscript
    } else if b == 0x5f {
        TokenType::Subscript
    } else if b == 0x00 || b == 0x0d {
        TokenType::Ignored
    } else if b == 0x20 || b == 0x09 {
        TokenType::Space
    } else if (0x41 <= b && b <= 0x5a) || (0x61 <= b && b <= 0x7a) {
        TokenType::Letter
    } else if b == 0x7e {
        TokenType::Active
    } else if b == 0x25 {
        TokenType::Comment
    } else if b == 0x7f {
        TokenType::Invalid
    } else {
        TokenType::Other
    }
}

/// The classification a table assigns to byte `b`: `table` is the full
/// 256-entry category map (defaults already overlaid with any overrides).
pub open spec fn classify(table: Seq<TokenType>, b: u8) -> TokenType {
    table[b as int]
}

/// The mutable character-to-category map consulted by the lexer. It starts
/// as the built-in default classification; an external collaborator (a
/// `\catcode`-implementing macro engine) may override single entries
/// between token requests, and the lexer reads the table fresh on every
/// classification.
pub struct CatcodeTable {
    table: Vec<TokenType>,
}

impl View for CatcodeTable {
    type V = Seq<TokenType>;

    closed spec fn view(&self) -> Seq<TokenType> {
        self.table@
    }
}

impl CatcodeTable {
    /// A table is well formed when it has one entry per byte value.
    pub open spec fn wf(&self) -> bool {
        self@.len() == 256
    }

    /// A fresh table holding the default classification for every byte.
    pub fn new() -> (t: CatcodeTable)
        ensures
            t.wf(),
            forall|b: u8| classify(t@, b) == default_catcode_spec(b),
    {
        let mut table: Vec<TokenType> = Vec::new();
        let mut i: usize = 0;
        while i < 256
            invariant
                i <= 256,
                table@.len() == i,
                forall|j: int| 0 <= j < i ==> table@[j] == default_catcode_spec(j as u8),
            decreases 256 - i,
        {
            table.push(default_catcode(i as u8));
            i = i + 1;
        }
        let t = CatcodeTable { table };
        proof {
            assert forall|b: u8| classify(t@, b) == default_catcode_spec(b) by {
                assert(t@[b as int] == default_catcode_spec((b as int) as u8));
            }
        }
        t
    }

    /// The category currently assigned to byte `b`.
    pub fn get(&self, b: u8) -> (t: TokenType)
        requires
            self.wf(),
        ensures
            t == classify(self@, b),
    {
        self.table[b as usize]
    }

    /// Overrides the category of byte `b`; every other entry is unchanged.
    pub fn set(&mut self, b: u8, t: TokenType)
        requires
            old(self).wf(),
        ensures
            final(self).wf(),
            final(self)@ == old(self)@.update(b as int, t),
    {
        self.table.set(b as usize, t);
    }
}

} // verus!
