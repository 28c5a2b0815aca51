//! Emission-side helpers the code writer shares: the indentation style of
//! the generated source and the indent strings it produces. The writer
//! itself performs I/O and lives outside this crate.

use vstd::prelude::*;

use crate::text::repeat_char;
use crate::text::repeated;

verus! {

/// How the generated source is indented.
pub struct Style {
    /// The indent level the first generated line starts at.
    pub start_indent_level: u32,
    /// Spaces per indent level when tabs are expanded.
    pub tab_width: u32,
    /// Whether to write spaces instead of tab characters.
    pub expand_tab: bool,
}

/// The indent string for one nesting level: spaces when tabs are
/// expanded, else tab characters.
pub open spec fn indent_of(level: u32, style: Style) -> Seq<char> {
    if style.expand_tab {
        repeated(' ', (level * style.tab_width) as nat)
    } else {
        repeated('\t', level as nat)
    }
}

/// Builds the indent string for one nesting level.
pub fn mkindent(level: u32, style: &Style) -> (r: String)
    requires
        level * style.tab_width <= usize::MAX,
    ensures
        r@ == indent_of(level, *style),
{
    match style.expand_tab {
        true => repeat_char(' ', (level as usize) * (style.tab_width as usize)),
        false => repeat_char('\t', level as usize),
    }
}

} // verus!
