//! Names on the compositor's interfaces: view-mode names, modifier names in
//! the configuration file, and window IDs written as decimal strings.
use vstd::prelude::*;
use crate::state::{lemma_models_index, ModifierKey, Treewm, ViewMode, WindowModel};

verus! {

/// Whether two strings hold the same characters.
pub fn str_eq(a: &str, b: &str) -> (res: bool)
    ensures
        res == (a@ == b@),
{
    let n = a.unicode_len();
    if n != b.unicode_len() {
        return false;
    }
    let mut i: usize = 0;
    while i < n
        invariant
            0 <= i <= n,
            n == a@.len(),
            n == b@.len(),
            forall|j: int| 0 <= j < i ==> a@[j] == b@[j],
        decreases n - i,
    {
        if a.get_char(i) != b.get_char(i) {
            return false;
        }
        i += 1;
    }
    assert(a@ =~= b@);
    true
}

/// The name of a view mode on the IPC interface.
pub open spec fn mode_name(m: ViewMode) -> Seq<char> {
    match m {
        ViewMode::Tiling => "tiling"@,
        ViewMode::TreeView => "tree"@,
    }
}

/// The view mode a name on the IPC interface selects.
pub open spec fn mode_named(s: Seq<char>) -> Option<ViewMode> {
    if s == "tiling"@ {
        Some(ViewMode::Tiling)
    } else if s == "tree"@ {
        Some(ViewMode::TreeView)
    } else {
        None
    }
}

/// The name of a view mode ("tiling" or "tree").
pub fn view_mode_name(m: ViewMode) -> (res: &'static str)
    ensures
        res@ == mode_name(m),
{
    match m {
        ViewMode::Tiling => "tiling",
        ViewMode::TreeView => "tree",
    }
}

/// The view mode called `name`, if any.
pub fn parse_view_mode(name: &str) -> (res: Option<ViewMode>)
    ensures
        res == mode_named(name@),
{
    if str_eq(name, "tiling") {
        Some(ViewMode::Tiling)
    } else if str_eq(name, "tree") {
        Some(ViewMode::TreeView)
    } else {
        None
    }
}

/// A view mode's name selects that view mode.
pub proof fn lemma_mode_name_round_trip(m: ViewMode)
    ensures
        mode_named(mode_name(m)) == Some(m),
{
    reveal_strlit("tiling");
    reveal_strlit("tree");
    assert("tiling"@.len() != "tree"@.len());
}

/// The name of a modifier key in the configuration file.
pub open spec fn modifier_name(k: ModifierKey) -> Seq<char> {
    match k {
        ModifierKey::Ctrl => "Ctrl"@,
        ModifierKey::Super => "Super"@,
        ModifierKey::Shift => "Shift"@,
        ModifierKey::Alt => "Alt"@,
    }
}

/// The modifier key a configuration name selects.
pub open spec fn modifier_named(s: Seq<char>) -> Option<ModifierKey> {
    if s == "Ctrl"@ {
        Some(ModifierKey::Ctrl)
    } else if s == "Super"@ {
        Some(ModifierKey::Super)
    } else if s == "Shift"@ {
        Some(ModifierKey::Shift)
    } else if s == "Alt"@ {
        Some(ModifierKey::Alt)
    } else {
        None
    }
}

impl ModifierKey {
    /// The modifier called `name` in the configuration file ("Ctrl", "Super",
    /// "Shift" or "Alt"), if any.
    pub fn from_config_name(name: &str) -> (res: Option<ModifierKey>)
        ensures
            res == modifier_named(name@),
    {
        if str_eq(name, "Ctrl") {
            Some(ModifierKey::Ctrl)
        } else if str_eq(name, "Super") {
            Some(ModifierKey::Super)
        } else if str_eq(name, "Shift") {
            Some(ModifierKey::Shift)
        } else if str_eq(name, "Alt") {
            Some(ModifierKey::Alt)
        } else {
            None
        }
    }

    /// The name of this modifier in the configuration file.
    pub fn config_name(&self) -> (res: &'static str)
        ensures
            res@ == modifier_name(*self),
    {
        match self {
            ModifierKey::Ctrl => "Ctrl",
            ModifierKey::Super => "Super",
            ModifierKey::Shift => "Shift",
            ModifierKey::Alt => "Alt",
        }
    }
}

/// A modifier's configuration name selects that modifier.
pub proof fn lemma_modifier_name_round_trip(k: ModifierKey)
    ensures
        modifier_named(modifier_name(k)) == Some(k),
{
    reveal_strlit("Ctrl");
    reveal_strlit("Super");
    reveal_strlit("Shift");
    reveal_strlit("Alt");
    assert("Super"@[1] != "Shift"@[1]);
    assert("Ctrl"@.len() == 4 && "Super"@.len() == 5 && "Shift"@.len() == 5 && "Alt"@.len() == 3);
    assert("Ctrl"@ != "Super"@ && "Ctrl"@ != "Shift"@ && "Ctrl"@ != "Alt"@);
    assert("Super"@ != "Shift"@ && "Super"@ != "Alt"@ && "Shift"@ != "Alt"@);
}

/// The decimal digit character for `d` (0 to 9).
pub open spec fn digit_char(d: int) -> char {
    if d == 0 {
        '0'
    } else if d == 1 {
        '1'
    } else if d == 2 {
        '2'
    } else if d == 3 {
        '3'
    } else if d == 4 {
        '4'
    } else if d == 5 {
        '5'
    } else if d == 6 {
        '6'
    } else if d == 7 {
        '7'
    } else if d == 8 {
        '8'
    } else {
        '9'
    }
}

/// Whether a character is a decimal digit.
pub open spec fn is_digit(c: char) -> bool {
    '0' <= c && c <= '9'
}

/// The decimal representation of `n`, without leading zeros.
pub open spec fn decimal(n: nat) -> Seq<char>
    decreases n,
{
    if n < 10 {
        seq![digit_char(n as int)]
    } else {
        decimal(n / 10).push(digit_char((n % 10) as int))
    }
}

/// The number that a string of decimal digits denotes.
pub open spec fn digits_value(s: Seq<char>) -> int
    decreases s.len(),
{
    if s.len() == 0 {
        0
    } else {
        digits_value(s.drop_last()) * 10 + (s.last() as int - '0' as int)
    }
}

/// What parsing a window ID gives: an optional `+`, then one or more decimal
/// digits denoting a number that fits in `u32`.
pub open spec fn parsed_id(s: Seq<char>) -> Option<u32> {
    let body = unsigned_body(s);
    if body.len() > 0 && all_digits(body) && digits_value(body) <= u32::MAX {
        Some(digits_value(body) as u32)
    } else {
        None
    }
}

/// The string without its leading `+`, if it has one.
pub open spec fn unsigned_body(s: Seq<char>) -> Seq<char> {
    if s.len() > 0 && s[0] == '+' {
        s.drop_first()
    } else {
        s
    }
}

/// Every character is a decimal digit.
pub open spec fn all_digits(s: Seq<char>) -> bool {
    forall|i: int| 0 <= i < s.len() ==> is_digit(#[trigger] s[i])
}

/// The one-character string of the digit `d`.
pub fn digit_str(d: u32) -> (res: &'static str)
    requires
        d < 10,
    ensures
        res@ == seq![digit_char(d as int)],
{
    proof {
        reveal_strlit("0");
        reveal_strlit("1");
        reveal_strlit("2");
        reveal_strlit("3");
        reveal_strlit("4");
        reveal_strlit("5");
        reveal_strlit("6");
        reveal_strlit("7");
        reveal_strlit("8");
        reveal_strlit("9");
    }
    let s = if d == 0 {
        "0"
    } else if d == 1 {
        "1"
    } else if d == 2 {
        "2"
    } else if d == 3 {
        "3"
    } else if d == 4 {
        "4"
    } else if d == 5 {
        "5"
    } else if d == 6 {
        "6"
    } else if d == 7 {
        "7"
    } else if d == 8 {
        "8"
    } else {
        "9"
    };
    assert(s@ =~= seq![digit_char(d as int)]);
    s
}

/// A window ID as the IPC interface writes it: in decimal.
pub fn window_id_string(id: u32) -> (res: String)
    ensures
        res@ == decimal(id as nat),
    decreases id,
{
    if id < 10 {
        let mut s = String::new();
        s.append(digit_str(id));
        assert(s@ =~= decimal(id as nat));
        s
    } else {
        let mut s = window_id_string(id / 10);
        s.append(digit_str(id % 10));
        s
    }
}

/// Digit strings denote at least what their prefixes denote.
pub proof fn lemma_digits_value_prefix(s: Seq<char>, j: int)
    requires
        0 <= j <= s.len(),
        forall|i: int| 0 <= i < s.len() ==> is_digit(#[trigger] s[i]),
    ensures
        digits_value(s.take(j)) <= digits_value(s),
        digits_value(s) >= 0,
    decreases s.len(),
{
    if s.len() > 0 {
        assert forall|i: int| 0 <= i < s.drop_last().len() implies is_digit(#[trigger] s.drop_last()[i]) by {
            assert(s.drop_last()[i] == s[i]);
        }
        assert(is_digit(s[s.len() - 1]));
        if j == s.len() {
            assert(s.take(j) =~= s);
            lemma_digits_value_prefix(s.drop_last(), 0);
        } else {
            assert(s.drop_last().take(j) =~= s.take(j));
            lemma_digits_value_prefix(s.drop_last(), j);
        }
    } else {
        assert(s.take(j) =~= s);
    }
}

/// The window ID that a string names on the IPC interface, if any: an
/// optional `+` followed by decimal digits, within the `u32` range.
pub fn parse_window_id(s: &str) -> (res: Option<u32>)
    ensures
        res == parsed_id(s@),
{
    let n = s.unicode_len();
    let start: usize = if n > 0 && s.get_char(0) == '+' {
        1
    } else {
        0
    };
    let ghost body = unsigned_body(s@);
    assert(body =~= s@.skip(start as int));
    if start == n {
        return None;
    }
    let mut value: u64 = 0;
    let mut i: usize = start;
    assert(body.take(0) =~= Seq::<char>::empty());
    while i < n
        invariant
            start <= i <= n,
            n == s@.len(),
            body == s@.skip(start as int),
            body == unsigned_body(s@),
            forall|j: int| 0 <= j < i - start ==> is_digit(#[trigger] body[j]),
            value as int == digits_value(body.take(i - start)),
            value <= u32::MAX,
        decreases n - i,
    {
        let c = s.get_char(i);
        assert(body[i - start] == c);
        if !('0' <= c && c <= '9') {
            assert(!is_digit(body[i - start]));
            assert(!all_digits(body));
            return None;
        }
        let d = (c as u32 - '0' as u32) as u64;
        let ghost t = body.take(i - start + 1);
        assert(t.drop_last() =~= body.take(i - start));
        assert(t.last() == c);
        value = value * 10 + d;
        i += 1;
        assert(value as int == digits_value(body.take(i - start)));
        if value > u32::MAX as u64 {
            proof {
                assert forall|j: int| 0 <= j < i - start implies is_digit(#[trigger] body.take(i - start)[j]) by {}
                if all_digits(body) {
                    lemma_digits_value_prefix(body, i - start);
                }
            }
            return None;
        }
    }
    assert(body.take(i - start) =~= body);
    Some(value as u32)
}

/// Reading back a written window ID gives the same ID.
pub proof fn lemma_window_id_round_trip(id: u32)
    ensures
        parsed_id(decimal(id as nat)) == Some(id),
{
    lemma_decimal_digits(id as nat);
}

/// A digit character denotes its digit.
pub proof fn lemma_digit_char_value(d: int)
    requires
        0 <= d <= 9,
    ensures
        digit_char(d) as int - '0' as int == d,
        is_digit(digit_char(d)),
        digit_char(d) != '+',
{
    assert('0' as int == 48);
    assert('9' as int == 57);
}

/// A decimal representation is all digits, starts with a digit and denotes
/// its number.
pub proof fn lemma_decimal_digits(n: nat)
    ensures
        decimal(n).len() > 0,
        forall|i: int| 0 <= i < decimal(n).len() ==> is_digit(#[trigger] decimal(n)[i]),
        decimal(n)[0] != '+',
        digits_value(decimal(n)) == n,
    decreases n,
{
    lemma_digit_char_value((n % 10) as int);
    if n < 10 {
        assert(decimal(n).drop_last() =~= Seq::<char>::empty());
        assert(n % 10 == n);
        assert(decimal(n).last() == digit_char(n as int));
        assert(digits_value(Seq::<char>::empty()) == 0);
    }
    if n >= 10 {
        lemma_decimal_digits(n / 10);
        let d = decimal(n / 10);
        assert(decimal(n).drop_last() =~= d);
        assert(decimal(n)[0] == d[0]);
        assert forall|i: int| 0 <= i < decimal(n).len() implies is_digit(#[trigger] decimal(n)[i]) by {
            if i < d.len() {
                assert(decimal(n)[i] == d[i]);
            }
        }
        assert((n / 10) * 10 + n % 10 == n) by (nonlinear_arith);
        assert(decimal(n).last() == digit_char((n % 10) as int));
        assert(digits_value(decimal(n)) == digits_value(d) * 10 + (digit_char((n % 10) as int) as int - '0' as int));
    }
}


/// One window as the IPC tree listing reports it.
pub struct TreeEntry {
    pub id: String,
    /// `None` for a root.
    pub parent: Option<String>,
    pub children: Vec<String>,
    pub focused: bool,
}

/// The entry reports the window's place in the tree, with IDs in decimal.
pub open spec fn entry_describes(e: TreeEntry, w: WindowModel, focused: Option<u32>) -> bool {
    &&& e.id@ == decimal(w.id as nat)
    &&& match e.parent {
        Some(p) => w.parent_id is Some && p@ == decimal(w.parent_id->0 as nat),
        None => w.parent_id is None,
    }
    &&& e.children@.len() == w.children.len()
    &&& forall|k: int| 0 <= k < w.children.len() ==> (#[trigger] e.children@[k])@ == decimal(w.children[k] as nat)
    &&& e.focused == (focused == Some(w.id))
}

/// Window IDs in decimal.
pub fn id_strings(ids: &Vec<u32>) -> (res: Vec<String>)
    ensures
        res@.len() == ids@.len(),
        forall|k: int| 0 <= k < ids@.len() ==> (#[trigger] res@[k])@ == decimal(ids@[k] as nat),
{
    let mut res: Vec<String> = Vec::new();
    let mut i: usize = 0;
    while i < ids.len()
        invariant
            0 <= i <= ids.len(),
            res@.len() == i,
            forall|k: int| 0 <= k < i ==> (#[trigger] res@[k])@ == decimal(ids@[k] as nat),
        decreases ids.len() - i,
    {
        res.push(window_id_string(ids[i]));
        i += 1;
    }
    res
}

impl Treewm {
    /// The window tree as the IPC "get tree" reply lists it: one entry per
    /// window, in window order.
    pub fn tree_listing(&self) -> (res: Vec<TreeEntry>)
        ensures
            res@.len() == self.windows.len(),
            forall|i: int|
                0 <= i < self.windows.len() ==> entry_describes(
                    #[trigger] res@[i],
                    self.model()[i],
                    self.focused_window_id,
                ),
    {
        proof {
            lemma_models_index(self.windows@);
        }
        let mut res: Vec<TreeEntry> = Vec::new();
        let mut i: usize = 0;
        while i < self.windows.len()
            invariant
                0 <= i <= self.windows.len(),
                self.model().len() == self.windows.len(),
                res@.len() == i,
                forall|j: int| 0 <= j < i ==> entry_describes(#[trigger] res@[j], self.model()[j], self.focused_window_id),
            decreases self.windows.len() - i,
        {
            proof {
                lemma_models_index(self.windows@);
            }
            let w = &self.windows[i];
            let parent = match w.parent_id {
                Some(p) => Some(window_id_string(p)),
                None => None,
            };
            let focused = match self.focused_window_id {
                Some(f) => f == w.id,
                None => false,
            };
            res.push(TreeEntry { id: window_id_string(w.id), parent, children: id_strings(&w.children), focused });
            i += 1;
        }
        res
    }
}
} // verus!
