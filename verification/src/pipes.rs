//! Line-style presets for the box renderer: an immutable mapping from the
//! eleven border-glyph roles to display glyphs, with the three built-in
//! weights `Thin`, `Medium` and `Thick`.

use vstd::prelude::*;

verus! {

/// One glyph per border role. A valid map holds exactly one character per
/// role, and none of them is a line break.
#[derive(Clone, Copy, Debug)]
pub struct PipeMap {
    pub horizontal: &'static str,
    pub vertical: &'static str,
    pub top_left: &'static str,
    pub top_right: &'static str,
    pub bottom_left: &'static str,
    pub bottom_right: &'static str,
    pub top_horizontal: &'static str,
    pub bottom_horizontal: &'static str,
    pub left_vertical: &'static str,
    pub right_vertical: &'static str,
    pub cross: &'static str,
}

/// A single-character glyph that cannot break a rendered line.
pub open spec fn glyph_ok(g: &str) -> bool {
    g@.len() == 1 && g@[0] != '\n'
}

impl PipeMap {
    pub open spec fn wf(self) -> bool {
        &&& glyph_ok(self.horizontal)
        &&& glyph_ok(self.vertical)
        &&& glyph_ok(self.top_left)
        &&& glyph_ok(self.top_right)
        &&& glyph_ok(self.bottom_left)
        &&& glyph_ok(self.bottom_right)
        &&& glyph_ok(self.top_horizontal)
        &&& glyph_ok(self.bottom_horizontal)
        &&& glyph_ok(self.left_vertical)
        &&& glyph_ok(self.right_vertical)
        &&& glyph_ok(self.cross)
    }

    pub open spec fn is_thin(self) -> bool {
        &&& self.horizontal@ == seq!['─']
        &&& self.vertical@ == seq!['│']
        &&& self.top_left@ == seq!['┌']
        &&& self.top_right@ == seq!['┐']
        &&& self.bottom_left@ == seq!['└']
        &&& self.bottom_right@ == seq!['┘']
        &&& self.top_horizontal@ == seq!['┬']
        &&& self.bottom_horizontal@ == seq!['┴']
        &&& self.left_vertical@ == seq!['├']
        &&& self.right_vertical@ == seq!['┤']
        &&& self.cross@ == seq!['┼']
    }

    pub open spec fn is_medium(self) -> bool {
        &&& self.horizontal@ == seq!['━']
        &&& self.vertical@ == seq!['┃']
        &&& self.top_left@ == seq!['┏']
        &&& self.top_right@ == seq!['┓']
        &&& self.bottom_left@ == seq!['┗']
        &&& self.bottom_right@ == seq!['┛']
        &&& self.top_horizontal@ == seq!['┳']
        &&& self.bottom_horizontal@ == seq!['┻']
        &&& self.left_vertical@ == seq!['┣']
        &&& self.right_vertical@ == seq!['┫']
        &&& self.cross@ == seq!['╋']
    }

    pub open spec fn is_thick(self) -> bool {
        &&& self.horizontal@ == seq!['═']
        &&& self.vertical@ == seq!['║']
        &&& self.top_left@ == seq!['╔']
        &&& self.top_right@ == seq!['╗']
        &&& self.bottom_left@ == seq!['╚']
        &&& self.bottom_right@ == seq!['╝']
        &&& self.top_horizontal@ == seq!['╦']
        &&& self.bottom_horizontal@ == seq!['╩']
        &&& self.left_vertical@ == seq!['╠']
        &&& self.right_vertical@ == seq!['╣']
        &&& self.cross@ == seq!['╬']
    }

    pub fn thin() -> (p: PipeMap)
        ensures
            p.wf(),
            p.is_thin(),
    {
        let p = PipeMap {
            horizontal: "─",
            vertical: "│",
            top_left: "┌",
            top_right: "┐",
            bottom_left: "└",
            bottom_right: "┘",
            top_horizontal: "┬",
            bottom_horizontal: "┴",
            left_vertical: "├",
            right_vertical: "┤",
            cross: "┼",
        };
        proof {
            reveal_strlit("─");
            reveal_strlit("│");
            reveal_strlit("┌");
            reveal_strlit("┐");
            reveal_strlit("└");
            reveal_strlit("┘");
            reveal_strlit("┬");
            reveal_strlit("┴");
            reveal_strlit("├");
            reveal_strlit("┤");
            reveal_strlit("┼");
            assert(p.horizontal@ =~= seq!['─']);
            assert(p.vertical@ =~= seq!['│']);
            assert(p.top_left@ =~= seq!['┌']);
            assert(p.top_right@ =~= seq!['┐']);
            assert(p.bottom_left@ =~= seq!['└']);
            assert(p.bottom_right@ =~= seq!['┘']);
            assert(p.top_horizontal@ =~= seq!['┬']);
            assert(p.bottom_horizontal@ =~= seq!['┴']);
            assert(p.left_vertical@ =~= seq!['├']);
            assert(p.right_vertical@ =~= seq!['┤']);
            assert(p.cross@ =~= seq!['┼']);
        }
        p
    }

    pub fn medium() -> (p: PipeMap)
        ensures
            p.wf(),
            p.is_medium(),
    {
        let p = PipeMap {
            horizontal: "━",
            vertical: "┃",
            top_left: "┏",
            top_right: "┓",
            bottom_left: "┗",
            bottom_right: "┛",
            top_horizontal: "┳",
            bottom_horizontal: "┻",
            left_vertical: "┣",
            right_vertical: "┫",
            cross: "╋",
        };
        proof {
            reveal_strlit("━");
            reveal_strlit("┃");
            reveal_strlit("┏");
            reveal_strlit("┓");
            reveal_strlit("┗");
            reveal_strlit("┛");
            reveal_strlit("┳");
            reveal_strlit("┻");
            reveal_strlit("┣");
            reveal_strlit("┫");
            reveal_strlit("╋");
            assert(p.horizontal@ =~= seq!['━']);
            assert(p.vertical@ =~= seq!['┃']);
            assert(p.top_left@ =~= seq!['┏']);
            assert(p.top_right@ =~= seq!['┓']);
            assert(p.bottom_left@ =~= seq!['┗']);
            assert(p.bottom_right@ =~= seq!['┛']);
            assert(p.top_horizontal@ =~= seq!['┳']);
            assert(p.bottom_horizontal@ =~= seq!['┻']);
            assert(p.left_vertical@ =~= seq!['┣']);
            assert(p.right_vertical@ =~= seq!['┫']);
            assert(p.cross@ =~= seq!['╋']);
        }
        p
    }

    pub fn thick() -> (p: PipeMap)
        ensures
            p.wf(),
            p.is_thick(),
    {
        let p = PipeMap {
            horizontal: "═",
            vertical: "║",
            top_left: "╔",
            top_right: "╗",
            bottom_left: "╚",
            bottom_right: "╝",
            top_horizontal: "╦",
            bottom_horizontal: "╩",
            left_vertical: "╠",
            right_vertical: "╣",
            cross: "╬",
        };
        proof {
            reveal_strlit("═");
            reveal_strlit("║");
            reveal_strlit("╔");
            reveal_strlit("╗");
            reveal_strlit("╚");
            reveal_strlit("╝");
            reveal_strlit("╦");
            reveal_strlit("╩");
            reveal_strlit("╠");
            reveal_strlit("╣");
            reveal_strlit("╬");
            assert(p.horizontal@ =~= seq!['═']);
            assert(p.vertical@ =~= seq!['║']);
            assert(p.top_left@ =~= seq!['╔']);
            assert(p.top_right@ =~= seq!['╗']);
            assert(p.bottom_left@ =~= seq!['╚']);
            assert(p.bottom_right@ =~= seq!['╝']);
            assert(p.top_horizontal@ =~= seq!['╦']);
            assert(p.bottom_horizontal@ =~= seq!['╩']);
            assert(p.left_vertical@ =~= seq!['╠']);
            assert(p.right_vertical@ =~= seq!['╣']);
            assert(p.cross@ =~= seq!['╬']);
        }
        p
    }
}

/// Compares two strings character by character.
fn str_eq(a: &str, b: &str) -> (r: bool)
    ensures
        r <==> a@ == b@,
{
    let la = a.unicode_len();
    let lb = b.unicode_len();
    if la != lb {
        return false;
    }
    let mut i: usize = 0;
    while i < la
        invariant
            la == a@.len(),
            la == b@.len(),
            i <= la,
            forall|j: int| 0 <= j < i ==> a@[j] == b@[j],
        decreases la - i,
    {
        if a.get_char(i) != b.get_char(i) {
            return false;
        }
        i += 1;
    }
    proof {
        assert(a@ =~= b@);
    }
    true
}

/// Looks a preset up by its name. The three built-in names are `"Thin"`,
/// `"Medium"` and `"Thick"`; any other name is rejected.
pub fn select_preset(name: &str) -> (r: Option<PipeMap>)
    ensures
        name@ == "Thin"@ ==> (r matches Some(p) && p.wf() && p.is_thin()),
        name@ == "Medium"@ ==> (r matches Some(p) && p.wf() && p.is_medium()),
        name@ == "Thick"@ ==> (r matches Some(p) && p.wf() && p.is_thick()),
        r is None <==> (name@ != "Thin"@ && name@ != "Medium"@ && name@ != "Thick"@),
{
    proof {
        reveal_strlit("Thin");
        reveal_strlit("Medium");
        reveal_strlit("Thick");
        assert("Thin"@.len() == 4);
        assert("Medium"@.len() == 6);
        assert("Thick"@.len() == 5);
    }
    if str_eq(name, "Thin") {
        Some(PipeMap::thin())
    } else if str_eq(name, "Medium") {
        Some(PipeMap::medium())
    } else if str_eq(name, "Thick") {
        Some(PipeMap::thick())
    } else {
        None
    }
}

} // verus!
