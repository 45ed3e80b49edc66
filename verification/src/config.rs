//! Merging discovered commands with the user's configuration: overrides,
//! static commands, the category order, and the sorted command list.

use vstd::prelude::*;

use crate::discovery::{Discovered, DiscoveredView};
use crate::sorting::{insert_pos, is_total_preorder, sort_by};
use crate::text::{chars_of, string_from_chars};

verus! {

/// A command as the interface shows it.
#[derive(Debug, Clone)]
pub struct Command {
    pub name: String,
    pub description: String,
    pub definition: String,
    pub example: Option<String>,
    pub category: String,
}

/// The characters of a `Command`.
pub struct CommandView {
    pub name: Seq<char>,
    pub description: Seq<char>,
    pub definition: Seq<char>,
    pub example: Option<Seq<char>>,
    pub category: Seq<char>,
}

/// One `[[commands]]` entry of the configuration file.
pub struct CommandEntry {
    pub name: String,
    pub category: Option<String>,
    pub description: Option<String>,
    pub example: Option<String>,
}

/// The characters of a `CommandEntry`.
pub struct EntryView {
    pub name: Seq<char>,
    pub category: Option<Seq<char>>,
    pub description: Option<Seq<char>>,
    pub example: Option<Seq<char>>,
}

/// The configuration file: the preferred order of categories, and the command
/// entries (both empty when the file is missing or does not parse).
pub struct RecallConfig {
    pub category_order: Vec<String>,
    pub commands: Vec<CommandEntry>,
}

pub open spec fn opt_str_view(o: Option<String>) -> Option<Seq<char>> {
    match o {
        Some(s) => Some(s@),
        None => None,
    }
}

impl View for Command {
    type V = CommandView;

    open spec fn view(&self) -> CommandView {
        CommandView {
            name: self.name@,
            description: self.description@,
            definition: self.definition@,
            example: opt_str_view(self.example),
            category: self.category@,
        }
    }
}

impl View for CommandEntry {
    type V = EntryView;

    open spec fn view(&self) -> EntryView {
        EntryView {
            name: self.name@,
            category: opt_str_view(self.category),
            description: opt_str_view(self.description),
            example: opt_str_view(self.example),
        }
    }
}

pub open spec fn strings_view(v: Seq<String>) -> Seq<Seq<char>> {
    v.map_values(|s: String| s@)
}

pub open spec fn commands_view(v: Seq<Command>) -> Seq<CommandView> {
    v.map_values(|c: Command| c@)
}

pub open spec fn entries_view(v: Seq<CommandEntry>) -> Seq<EntryView> {
    v.map_values(|e: CommandEntry| e@)
}

/// `a` comes before `b` in the order of `String`: comparing characters by
/// code point from the front, a proper prefix first. (UTF-8 keeps code point
/// order, so this is the byte order that `String::cmp` uses.)
pub open spec fn name_lt(a: Seq<char>, b: Seq<char>) -> bool
    decreases a.len(),
{
    if b.len() == 0 {
        false
    } else if a.len() == 0 {
        true
    } else if (a[0] as u32) < (b[0] as u32) {
        true
    } else if (a[0] as u32) == (b[0] as u32) {
        name_lt(a.drop_first(), b.drop_first())
    } else {
        false
    }
}

pub proof fn lemma_name_lt_asymmetric(a: Seq<char>, b: Seq<char>)
    ensures
        !(name_lt(a, b) && name_lt(b, a)),
    decreases a.len(),
{
    if a.len() > 0 && b.len() > 0 && (a[0] as u32) == (b[0] as u32) {
        lemma_name_lt_asymmetric(a.drop_first(), b.drop_first());
    }
}

/// `name_lt` is a strict weak order: when `c < a`, any `b` lies after `c` or
/// before `a`.
pub proof fn lemma_name_lt_weak(a: Seq<char>, b: Seq<char>, c: Seq<char>)
    requires
        name_lt(c, a),
    ensures
        name_lt(c, b) || name_lt(b, a),
    decreases c.len(),
{
    if c.len() > 0 && a.len() > 0 && b.len() > 0 {
        if (c[0] as u32) == (a[0] as u32) && (b[0] as u32) == (c[0] as u32) {
            lemma_name_lt_weak(a.drop_first(), b.drop_first(), c.drop_first());
        }
    }
}

/// `name_lt` is the lexicographic order, said directly: `a` comes before `b`
/// exactly when they agree on a common prefix after which either `a` ends
/// while `b` goes on, or `a`'s next character has the lower code point.
pub proof fn lemma_name_lt_lexicographic(a: Seq<char>, b: Seq<char>)
    ensures
        name_lt(a, b) <==> exists|k: int|
            0 <= k <= a.len() && k < b.len() && #[trigger] a.take(k) == b.take(k) && (k == a.len()
                || (a[k] as u32) < (b[k] as u32)),
    decreases a.len(),
{
    if b.len() == 0 {
    } else if a.len() == 0 {
        assert(a.take(0) =~= b.take(0));
    } else if (a[0] as u32) < (b[0] as u32) {
        assert(a.take(0) =~= b.take(0));
    } else if (a[0] as u32) == (b[0] as u32) {
        let a1 = a.drop_first();
        let b1 = b.drop_first();
        lemma_name_lt_lexicographic(a1, b1);
        if name_lt(a1, b1) {
            let k1 = choose|k: int|
                0 <= k <= a1.len() && k < b1.len() && #[trigger] a1.take(k) == b1.take(k) && (k
                    == a1.len() || (a1[k] as u32) < (b1[k] as u32));
            let k = k1 + 1;
            assert(a[0] == b[0]) by {
                vstd::utf8::char_u32_cast(a[0], a[0] as u32);
                vstd::utf8::char_u32_cast(b[0], b[0] as u32);
            }
            assert forall|m: int| 0 <= m < k implies a[m] == b[m] by {
                if m > 0 {
                    assert(a1.take(k1)[m - 1] == b1.take(k1)[m - 1]);
                }
            }
            assert(a.take(k) =~= b.take(k));
        } else {
            if exists|k: int|
                0 <= k <= a.len() && k < b.len() && #[trigger] a.take(k) == b.take(k) && (k
                    == a.len() || (a[k] as u32) < (b[k] as u32)) {
                let k = choose|k: int|
                    0 <= k <= a.len() && k < b.len() && #[trigger] a.take(k) == b.take(k) && (k
                        == a.len() || (a[k] as u32) < (b[k] as u32));
                assert(k > 0);
                let k1 = k - 1;
                assert forall|m: int| 0 <= m < k1 implies a1[m] == b1[m] by {
                    assert(a.take(k)[m + 1] == b.take(k)[m + 1]);
                }
                assert(a1.take(k1) =~= b1.take(k1));
                assert(a1[k1] == a[k]);
            }
        }
    } else {
        if exists|k: int|
            0 <= k <= a.len() && k < b.len() && #[trigger] a.take(k) == b.take(k) && (k == a.len()
                || (a[k] as u32) < (b[k] as u32)) {
            let k = choose|k: int|
                0 <= k <= a.len() && k < b.len() && #[trigger] a.take(k) == b.take(k) && (k
                    == a.len() || (a[k] as u32) < (b[k] as u32));
            assert(a.take(k)[0] == b.take(k)[0]);
        }
    }
}

} // verus!

verus! {

/// The category of a command that no entry gives one.
pub open spec fn other_category() -> Seq<char> {
    seq!['O', 't', 'h', 'e', 'r']
}

pub open spec fn or_else(o: Option<Seq<char>>, d: Seq<char>) -> Seq<char> {
    match o {
        Some(s) => s,
        None => d,
    }
}

/// Some discovered command is named `name`.
pub open spec fn is_discovered_name(found: Seq<DiscoveredView>, name: Seq<char>) -> bool {
    exists|i: int| 0 <= i < found.len() && #[trigger] found[i].name == name
}

/// The last entry named `name`: later entries override earlier ones.
pub open spec fn last_entry_named(entries: Seq<EntryView>, name: Seq<char>) -> Option<EntryView>
    decreases entries.len(),
{
    if entries.len() == 0 {
        None
    } else if entries.last().name == name {
        Some(entries.last())
    } else {
        last_entry_named(entries.drop_last(), name)
    }
}

/// A discovered command with the entry `over` (if any) applied: the entry's
/// description, example and category take precedence; the description falls
/// back to the definition and the category to `Other`.
pub open spec fn discovered_command(d: DiscoveredView, over: Option<EntryView>) -> CommandView {
    CommandView {
        name: d.name,
        description: match over {
            Some(o) => or_else(o.description, d.definition),
            None => d.definition,
        },
        definition: d.definition,
        example: match over {
            Some(o) => o.example,
            None => None,
        },
        category: match over {
            Some(o) => or_else(o.category, other_category()),
            None => other_category(),
        },
    }
}

/// A command that only the configuration defines.
pub open spec fn static_command(e: EntryView) -> CommandView {
    CommandView {
        name: e.name,
        description: or_else(e.description, Seq::empty()),
        definition: Seq::empty(),
        example: e.example,
        category: or_else(e.category, other_category()),
    }
}

/// The discovered commands, in discovery order, with their overrides applied.
pub open spec fn discovered_commands(found: Seq<DiscoveredView>, entries: Seq<EntryView>) -> Seq<
    CommandView,
> {
    Seq::new(
        found.len(),
        |i: int| discovered_command(found[i], last_entry_named(entries, found[i].name)),
    )
}

/// The entries whose name no discovered command has, as commands, in file order.
pub open spec fn static_commands(found: Seq<DiscoveredView>, entries: Seq<EntryView>) -> Seq<
    CommandView,
>
    decreases entries.len(),
{
    if entries.len() == 0 {
        Seq::empty()
    } else {
        let prev = static_commands(found, entries.drop_last());
        if is_discovered_name(found, entries.last().name) {
            prev
        } else {
            prev.push(static_command(entries.last()))
        }
    }
}

/// The categories in order: the configured ones first, then each further
/// category in the order in which it first appears in `cats`.
pub open spec fn category_order(configured: Seq<Seq<char>>, cats: Seq<Seq<char>>) -> Seq<Seq<char>>
    decreases cats.len(),
{
    if cats.len() == 0 {
        configured
    } else {
        let prev = category_order(configured, cats.drop_last());
        if prev.contains(cats.last()) {
            prev
        } else {
            prev.push(cats.last())
        }
    }
}

/// The first position of `cat` in `order`, or `usize::MAX` when it is absent.
pub open spec fn category_position(order: Seq<Seq<char>>, cat: Seq<char>) -> int {
    if order.contains(cat) {
        choose|k: int| 0 <= k < order.len() && order[k] == cat && forall|j: int| 0 <= j < k ==> order[j] != cat
    } else {
        usize::MAX as int
    }
}

/// The order of commands in the interface: by the position of their category,
/// then by name.
pub open spec fn command_le(order: Seq<Seq<char>>) -> spec_fn(CommandView, CommandView) -> bool {
    |a: CommandView, b: CommandView|
        {
            let pa = category_position(order, a.category);
            let pb = category_position(order, b.category);
            pa < pb || (pa == pb && !name_lt(b.name, a.name))
        }
}

pub proof fn lemma_command_le_total_preorder(order: Seq<Seq<char>>)
    ensures
        is_total_preorder(command_le(order)),
{
    let le = command_le(order);
    assert forall|a: CommandView, b: CommandView| #[trigger] le(a, b) || #[trigger] le(b, a) by {
        lemma_name_lt_asymmetric(a.name, b.name);
    }
    assert forall|a: CommandView, b: CommandView, c: CommandView|
        #[trigger] le(a, b) && #[trigger] le(b, c) implies le(a, c) by {
        if name_lt(c.name, a.name) {
            lemma_name_lt_weak(a.name, b.name, c.name);
        }
    }
}

/// All commands: the discovered ones first, then the static ones.
pub open spec fn merged_commands(found: Seq<DiscoveredView>, entries: Seq<EntryView>) -> Seq<CommandView> {
    discovered_commands(found, entries) + static_commands(found, entries)
}

pub open spec fn categories_of(cmds: Seq<CommandView>) -> Seq<Seq<char>> {
    cmds.map_values(|c: CommandView| c.category)
}

/// What `load_and_merge` returns: the merged commands sorted (stably) by
/// category position and name, and the category order.
pub open spec fn spec_load_and_merge(
    found: Seq<DiscoveredView>,
    configured: Seq<Seq<char>>,
    entries: Seq<EntryView>,
) -> (Seq<CommandView>, Seq<Seq<char>>) {
    let merged = merged_commands(found, entries);
    let order = category_order(configured, categories_of(merged));
    (sort_by(merged, command_le(order)), order)
}

} // verus!

verus! {

/// A copy of an optional string.
pub fn clone_opt_string(o: &Option<String>) -> (r: Option<String>)
    ensures
        opt_str_view(r) == opt_str_view(*o),
{
    match o {
        Some(s) => Some(s.clone()),
        None => None,
    }
}

/// Whether `v` holds a string equal to `s`.
pub fn contains_string(v: &[String], s: &String) -> (r: bool)
    ensures
        r == strings_view(v@).contains(s@),
{
    let mut k: usize = 0;
    while k < v.len()
        invariant
            k <= v@.len(),
            forall|j: int| 0 <= j < k ==> v@[j]@ != s@,
        decreases v@.len() - k,
    {
        if v[k] == *s {
            assert(strings_view(v@)[k as int] == s@);
            return true;
        }
        k = k + 1;
    }
    assert forall|j: int| 0 <= j < strings_view(v@).len() implies strings_view(v@)[j] != s@ by {
        assert(v@[j]@ != s@);
    }
    false
}

/// The position of `cat` in `order`, or `usize::MAX` when it is absent.
pub fn category_pos(order: &[String], cat: &String) -> (r: usize)
    ensures
        r as int == category_position(strings_view(order@), cat@),
{
    let ghost view = strings_view(order@);
    let mut k: usize = 0;
    while k < order.len()
        invariant
            view == strings_view(order@),
            k <= order@.len(),
            forall|j: int| 0 <= j < k ==> view[j] != cat@,
        decreases order@.len() - k,
    {
        if order[k] == *cat {
            proof {
                assert(view[k as int] == cat@);
                assert(view.contains(cat@));
                let c = choose|c: int|
                    0 <= c < view.len() && view[c] == cat@ && forall|j: int|
                        0 <= j < c ==> view[j] != cat@;
                assert(c == k);
            }
            return k;
        }
        k = k + 1;
    }
    usize::MAX
}

/// The configured categories, then each further category of `commands` in
/// the order in which it first appears.
pub fn build_category_order(configured: &[String], commands: &[Command]) -> (r: Vec<String>)
    ensures
        strings_view(r@) == category_order(
            strings_view(configured@),
            categories_of(commands_view(commands@)),
        ),
{
    let ghost cats = categories_of(commands_view(commands@));
    let mut order: Vec<String> = Vec::new();
    let mut k: usize = 0;
    while k < configured.len()
        invariant
            k <= configured@.len(),
            order@.len() == k,
            strings_view(order@) == strings_view(configured@).take(k as int),
        decreases configured@.len() - k,
    {
        let s = configured[k].clone();
        let ghost before = order@;
        order.push(s);
        assert(order@ == before.push(configured@[k as int]));
        assert(order@.len() == k + 1);
        assert(strings_view(order@).len() == k + 1);
        assert forall|j: int| 0 <= j < k implies strings_view(order@)[j] == strings_view(
            configured@,
        )[j] by {
            assert(strings_view(before)[j] == strings_view(configured@).take(k as int)[j]);
        }
        assert(strings_view(order@) =~= strings_view(configured@).take(k + 1));
        k = k + 1;
    }
    assert(strings_view(configured@).take(k as int) =~= strings_view(configured@));
    assert(cats.take(0) =~= Seq::<Seq<char>>::empty());
    let mut c: usize = 0;
    while c < commands.len()
        invariant
            c <= commands@.len(),
            cats == categories_of(commands_view(commands@)),
            strings_view(order@) == category_order(strings_view(configured@), cats.take(c as int)),
        decreases commands@.len() - c,
    {
        assert(cats.take(c + 1).drop_last() =~= cats.take(c as int));
        if !contains_string(&order, &commands[c].category) {
            let ghost before = strings_view(order@);
            order.push(commands[c].category.clone());
            assert(strings_view(order@) =~= before.push(commands@[c as int].category@));
        }
        c = c + 1;
    }
    assert(cats.take(c as int) =~= cats);
    order
}

/// Whether `a` comes before `b` in the order of `String` (`name_lt`).
pub fn name_less(a: &[char], b: &[char]) -> (r: bool)
    ensures
        r == name_lt(a@, b@),
{
    let mut i: usize = 0;
    assert(a@.skip(0) =~= a@);
    assert(b@.skip(0) =~= b@);
    while i < a.len() && i < b.len()
        invariant
            i <= a@.len(),
            i <= b@.len(),
            name_lt(a@, b@) == name_lt(a@.skip(i as int), b@.skip(i as int)),
        decreases a@.len() - i,
    {
        let x = a[i] as u32;
        let y = b[i] as u32;
        assert(a@.skip(i as int)[0] == a@[i as int]);
        assert(b@.skip(i as int)[0] == b@[i as int]);
        if x < y {
            return true;
        }
        if x > y {
            return false;
        }
        assert(a@.skip(i as int).drop_first() =~= a@.skip(i + 1));
        assert(b@.skip(i as int).drop_first() =~= b@.skip(i + 1));
        i = i + 1;
    }
    i < b.len()
}

} // verus!

verus! {

/// Where a command `x` (at category position `pos`, named `name`) goes into
/// `out`, whose keys are `key_pos` and `key_name`.
fn find_insert_pos(
    out: &Vec<Command>,
    key_pos: &Vec<usize>,
    key_name: &Vec<Vec<char>>,
    Ghost(ov): Ghost<Seq<Seq<char>>>,
    Ghost(x): Ghost<CommandView>,
    pos: usize,
    name: &Vec<char>,
) -> (p: usize)
    requires
        pos as int == category_position(ov, x.category),
        name@ == x.name,
        key_pos@.len() == out@.len(),
        key_name@.len() == out@.len(),
        forall|j: int|
            0 <= j < out@.len() ==> #[trigger] key_pos@[j] as int == category_position(
                ov,
                out@[j].category@,
            ) && key_name@[j]@ == out@[j].name@,
    ensures
        p == insert_pos(commands_view(out@), x, command_le(ov)),
        p <= out@.len(),
{
    let ghost out_v = commands_view(out@);
    let ghost le = command_le(ov);
    let mut p: usize = 0;
    assert(out_v.skip(0) =~= out_v);
    while p < out.len()
        invariant
            out_v == commands_view(out@),
            le == command_le(ov),
            pos as int == category_position(ov, x.category),
            name@ == x.name,
            p <= out@.len(),
            key_pos@.len() == out@.len(),
            key_name@.len() == out@.len(),
            forall|j: int|
                0 <= j < out@.len() ==> #[trigger] key_pos@[j] as int == category_position(
                    ov,
                    out@[j].category@,
                ) && key_name@[j]@ == out@[j].name@,
            insert_pos(out_v, x, le) == p + insert_pos(out_v.skip(p as int), x, le),
        decreases out@.len() - p,
    {
        let kp = key_pos[p];
        let after = kp > pos || (kp == pos && name_less(name, &key_name[p]));
        assert(out_v.skip(p as int)[0] == out_v[p as int]);
        assert(out_v[p as int] == out@[p as int]@);
        if after {
            proof {
                lemma_insert_pos_le_len(out_v, x, ov);
            }
            return p;
        }
        assert(out_v.skip(p as int).drop_first() =~= out_v.skip(p + 1));
        p = p + 1;
    }
    assert(out_v.skip(p as int) =~= Seq::<CommandView>::empty());
    p
}

proof fn lemma_insert_pos_le_len(s: Seq<CommandView>, x: CommandView, ov: Seq<Seq<char>>)
    ensures
        insert_pos(s, x, command_le(ov)) <= s.len(),
{
    crate::sorting::lemma_insert_pos(s, x, command_le(ov));
}

/// The sort keys `key_pos` and `key_name` belong to the commands `out`.
#[verifier::opaque]
pub open spec fn keys_match(
    key_pos: Seq<usize>,
    key_name: Seq<Vec<char>>,
    out: Seq<Command>,
    ov: Seq<Seq<char>>,
) -> bool {
    &&& key_pos.len() == out.len()
    &&& key_name.len() == out.len()
    &&& forall|j: int|
        0 <= j < out.len() ==> #[trigger] key_pos[j] as int == category_position(ov, out[j].category@)
            && key_name[j]@ == out[j].name@
}

proof fn lemma_keys_insert(
    key_pos: Seq<usize>,
    key_name: Seq<Vec<char>>,
    out: Seq<Command>,
    ov: Seq<Seq<char>>,
    p: int,
    pos: usize,
    name: Vec<char>,
    cmd: Command,
)
    requires
        keys_match(key_pos, key_name, out, ov),
        0 <= p <= out.len(),
        pos as int == category_position(ov, cmd.category@),
        name@ == cmd.name@,
    ensures
        keys_match(key_pos.insert(p, pos), key_name.insert(p, name), out.insert(p, cmd), ov),
{
    reveal(keys_match);
    let kp = key_pos.insert(p, pos);
    let kn = key_name.insert(p, name);
    let o = out.insert(p, cmd);
    assert forall|j: int| 0 <= j < o.len() implies #[trigger] kp[j] as int == category_position(
        ov,
        o[j].category@,
    ) && kn[j]@ == o[j].name@ by {
        if j > p {
            assert(kp[j] == key_pos[j - 1]);
            assert(kn[j] == key_name[j - 1]);
            assert(o[j] == out[j - 1]);
        } else if j < p {
            assert(kp[j] == key_pos[j]);
            assert(kn[j] == key_name[j]);
            assert(o[j] == out[j]);
        }
    }
}

proof fn lemma_view_after_remove_first(before: Seq<Command>, after: Seq<Command>, input: Seq<CommandView>, n: int)
    requires
        before.len() > 0,
        after == before.remove(0),
        0 <= n < input.len(),
        commands_view(before) == input.skip(n),
    ensures
        before[0]@ == input[n],
        commands_view(after) == input.skip(n + 1),
{
    assert(commands_view(before)[0] == before[0]@);
    assert(commands_view(before).len() == before.len());
    assert(after.len() == before.len() - 1);
    assert forall|j: int| 0 <= j < after.len() implies commands_view(after)[j] == input.skip(n + 1)[j] by {
        assert(after[j] == before[j + 1]);
        assert(commands_view(before)[j + 1] == before[j + 1]@);
    }
    assert(commands_view(after) =~= input.skip(n + 1));
}

proof fn lemma_sort_step(input: Seq<CommandView>, n: int, out_v: Seq<CommandView>, le: spec_fn(CommandView, CommandView) -> bool, p: int)
    requires
        0 <= n < input.len(),
        out_v == sort_by(input.take(n), le),
        p == insert_pos(out_v, input[n], le),
    ensures
        out_v.insert(p, input[n]) == sort_by(input.take(n + 1), le),
{
    assert(input.take(n + 1).drop_last() =~= input.take(n));
    assert(input.take(n + 1).last() == input[n]);
}

/// Sorts commands stably by category position in `order`, then by name.
#[verifier::spinoff_prover]
pub fn sort_commands(cmds: Vec<Command>, order: &Vec<String>) -> (r: Vec<Command>)
    ensures
        commands_view(r@) == sort_by(commands_view(cmds@), command_le(strings_view(order@))),
{
    let ghost ov = strings_view(order@);
    let ghost le = command_le(ov);
    let ghost input = commands_view(cmds@);
    let total: usize = cmds.len();
    assert(input.len() == total);
    let mut rest = cmds;
    let mut out: Vec<Command> = Vec::new();
    let mut key_pos: Vec<usize> = Vec::new();
    let mut key_name: Vec<Vec<char>> = Vec::new();
    let mut n: usize = 0;
    assert(input.skip(0) =~= input);
    assert(input.take(0) =~= Seq::<CommandView>::empty());
    assert(keys_match(key_pos@, key_name@, out@, ov)) by {
        reveal(keys_match);
    }
    while rest.len() > 0
        invariant
            ov == strings_view(order@),
            le == command_le(ov),
            n <= input.len(),
            input.len() == total,
            commands_view(rest@) == input.skip(n as int),
            rest@.len() == input.len() - n,
            commands_view(out@) == sort_by(input.take(n as int), le),
            keys_match(key_pos@, key_name@, out@, ov),
        decreases rest@.len(),
    {
        let ghost out_v = commands_view(out@);
        let ghost rest_before = rest@;
        let cmd = rest.remove(0);
        proof {
            lemma_view_after_remove_first(rest_before, rest@, input, n as int);
        }
        let ghost x = cmd@;
        let pos = category_pos(order, &cmd.category);
        let name = chars_of(cmd.name.as_str());
        proof {
            reveal(keys_match);
        }
        let p = find_insert_pos(&out, &key_pos, &key_name, Ghost(ov), Ghost(x), pos, &name);
        proof {
            lemma_keys_insert(key_pos@, key_name@, out@, ov, p as int, pos, name, cmd);
            lemma_sort_step(input, n as int, out_v, le, p as int);
        }
        out.insert(p, cmd);
        key_pos.insert(p, pos);
        key_name.insert(p, name);
        assert(commands_view(out@) =~= out_v.insert(p as int, x));
        n = n + 1;
    }
    assert(input.take(n as int) =~= input);
    out
}

} // verus!

verus! {

/// The category name `Other`.
fn other_category_string() -> (r: String)
    ensures
        r@ == other_category(),
{
    let chars: Vec<char> = vec!['O', 't', 'h', 'e', 'r'];
    string_from_chars(&chars)
}

/// The index of the last entry named `name`.
fn last_entry_index(entries: &Vec<CommandEntry>, name: &String) -> (r: Option<usize>)
    ensures
        match r {
            Some(k) => k < entries@.len() && last_entry_named(entries_view(entries@), name@)
                == Some(entries@[k as int]@),
            None => last_entry_named(entries_view(entries@), name@) is None,
        },
{
    let ghost all = entries_view(entries@);
    let mut k: usize = entries.len();
    assert(all.take(k as int) =~= all);
    while k > 0
        invariant
            k <= entries@.len(),
            all == entries_view(entries@),
            last_entry_named(all, name@) == last_entry_named(all.take(k as int), name@),
        decreases k,
    {
        assert(all.take(k as int).last() == entries@[k - 1]@);
        assert(all.take(k as int).drop_last() =~= all.take(k - 1));
        if entries[k - 1].name == *name {
            return Some(k - 1);
        }
        k = k - 1;
    }
    None
}

/// Whether some discovered command is named `name`.
fn is_discovered(discovered: &[Discovered], name: &String) -> (r: bool)
    ensures
        r == is_discovered_name(crate::discovery::found_views(discovered@), name@),
{
    let ghost found = crate::discovery::found_views(discovered@);
    let mut k: usize = 0;
    while k < discovered.len()
        invariant
            k <= discovered@.len(),
            found == crate::discovery::found_views(discovered@),
            forall|j: int| 0 <= j < k ==> discovered@[j].name@ != name@,
        decreases discovered@.len() - k,
    {
        if discovered[k].name == *name {
            assert(found[k as int].name == name@);
            return true;
        }
        k = k + 1;
    }
    assert forall|j: int| 0 <= j < found.len() implies #[trigger] found[j].name != name@ by {
        assert(found[j] == discovered@[j]@);
    }
    false
}

/// Merges discovered commands with the configuration: an entry whose name a
/// discovered command has overrides that command's description, example and
/// category (the last such entry wins); every other entry becomes a command
/// of its own. The commands come back sorted stably by the position of their
/// category in the category order (see `build_category_order`), then by
/// name, together with that order.
pub fn load_and_merge(discovered: &[Discovered], config: &RecallConfig) -> (r: (
    Vec<Command>,
    Vec<String>,
))
    ensures
        ({
            let expected = spec_load_and_merge(
                crate::discovery::found_views(discovered@),
                strings_view(config.category_order@),
                entries_view(config.commands@),
            );
            commands_view(r.0@) == expected.0 && strings_view(r.1@) == expected.1
        }),
{
    let ghost found = crate::discovery::found_views(discovered@);
    let ghost entries = entries_view(config.commands@);
    let mut commands: Vec<Command> = Vec::new();
    let mut i: usize = 0;
    while i < discovered.len()
        invariant
            i <= discovered@.len(),
            found == crate::discovery::found_views(discovered@),
            entries == entries_view(config.commands@),
            commands@.len() == i,
            commands_view(commands@) == discovered_commands(found, entries).take(i as int),
        decreases discovered@.len() - i,
    {
        let disc = &discovered[i];
        assert(found[i as int] == disc@);
        let over = last_entry_index(&config.commands, &disc.name);
        let cmd = match over {
            Some(k) => {
                let o = &config.commands[k];
                Command {
                    name: disc.name.clone(),
                    description: match &o.description {
                        Some(d) => d.clone(),
                        None => disc.definition.clone(),
                    },
                    definition: disc.definition.clone(),
                    example: clone_opt_string(&o.example),
                    category: match &o.category {
                        Some(c) => c.clone(),
                        None => other_category_string(),
                    },
                }
            },
            None => Command {
                name: disc.name.clone(),
                description: disc.definition.clone(),
                definition: disc.definition.clone(),
                example: None,
                category: other_category_string(),
            },
        };
        let ghost before = commands@;
        commands.push(cmd);
        proof {
            assert(cmd@ == discovered_commands(found, entries)[i as int]);
            assert forall|j: int| 0 <= j <= i implies commands_view(commands@)[j]
                == discovered_commands(found, entries).take(i + 1)[j] by {
                if j < i {
                    assert(commands@[j] == before[j]);
                    assert(commands_view(before)[j] == discovered_commands(found, entries).take(
                        i as int,
                    )[j]);
                }
            }
            assert(commands_view(commands@) =~= discovered_commands(found, entries).take(i + 1));
        }
        i = i + 1;
    }
    assert(discovered_commands(found, entries).take(i as int) =~= discovered_commands(
        found,
        entries,
    ));
    let ghost disc_cmds = commands_view(commands@);
    let mut e: usize = 0;
    assert(entries.take(0) =~= Seq::<EntryView>::empty());
    assert(disc_cmds + Seq::<CommandView>::empty() =~= disc_cmds);
    while e < config.commands.len()
        invariant
            e <= config.commands@.len(),
            found == crate::discovery::found_views(discovered@),
            entries == entries_view(config.commands@),
            disc_cmds == discovered_commands(found, entries),
            commands_view(commands@) == disc_cmds + static_commands(found, entries.take(e as int)),
        decreases config.commands@.len() - e,
    {
        let entry = &config.commands[e];
        assert(entries[e as int] == entry@);
        assert(entries.take(e + 1).drop_last() =~= entries.take(e as int));
        assert(entries.take(e + 1).last() == entry@);
        if !is_discovered(discovered, &entry.name) {
            let cmd = Command {
                name: entry.name.clone(),
                description: match &entry.description {
                    Some(d) => d.clone(),
                    None => String::new(),
                },
                definition: String::new(),
                example: clone_opt_string(&entry.example),
                category: match &entry.category {
                    Some(c) => c.clone(),
                    None => other_category_string(),
                },
            };
            let ghost before = commands_view(commands@);
            let ghost cv = cmd@;
            commands.push(cmd);
            proof {
                assert(cv == static_command(entry@));
                assert(commands_view(commands@) =~= before.push(cv));
                assert(disc_cmds + static_commands(found, entries.take(e as int)).push(cv)
                    =~= (disc_cmds + static_commands(found, entries.take(e as int))).push(cv));
            }
        }
        e = e + 1;
    }
    assert(entries.take(e as int) =~= entries);
    let order = build_category_order(&config.category_order, &commands);
    let sorted = sort_commands(commands, &order);
    (sorted, order)
}

} // verus!

verus! {

/// The category order starts with the configured categories, then lists each
/// other category of the commands once, and nothing else.
pub proof fn lemma_category_order(configured: Seq<Seq<char>>, cats: Seq<Seq<char>>)
    ensures
        ({
            let o = category_order(configured, cats);
            &&& o.len() >= configured.len()
            &&& o.take(configured.len() as int) == configured
            &&& forall|k: int| 0 <= k < cats.len() ==> o.contains(#[trigger] cats[k])
            &&& forall|i: int|
                0 <= i < o.len() ==> configured.contains(#[trigger] o[i]) || cats.contains(o[i])
            &&& forall|i: int|
                configured.len() <= i < o.len() ==> !configured.contains(#[trigger] o[i])
            &&& forall|i: int, j: int|
                configured.len() <= i < j < o.len() ==> #[trigger] o[i] != #[trigger] o[j]
        }),
    decreases cats.len(),
{
    if cats.len() == 0 {
        assert(configured.take(configured.len() as int) =~= configured);
    } else {
        let prev = category_order(configured, cats.drop_last());
        lemma_category_order(configured, cats.drop_last());
        let o = category_order(configured, cats);
        assert(o.take(configured.len() as int) =~= prev.take(configured.len() as int));
        assert forall|k: int| 0 <= k < cats.len() implies o.contains(#[trigger] cats[k]) by {
            if k < cats.len() - 1 {
                assert(cats[k] == cats.drop_last()[k]);
                let w = choose|w: int| 0 <= w < prev.len() && prev[w] == cats[k];
                assert(o[w] == cats[k]);
            } else if !prev.contains(cats.last()) {
                assert(o[o.len() - 1] == cats[k]);
            }
        }
        assert forall|i: int| 0 <= i < o.len() implies configured.contains(#[trigger] o[i])
            || cats.contains(o[i]) by {
            if i < prev.len() {
                if cats.drop_last().contains(prev[i]) {
                    let w = choose|w: int| 0 <= w < cats.drop_last().len() && cats.drop_last()[w] == prev[i];
                    assert(cats[w] == prev[i]);
                }
            } else {
                assert(cats[cats.len() - 1] == o[i]);
            }
        }
    }
}

/// The categories that the configuration does not list come in the order in
/// which the commands first have them: of two such categories, the earlier
/// one occurs among the commands' categories before any occurrence of the
/// later one.
pub proof fn lemma_category_order_first_seen(configured: Seq<Seq<char>>, cats: Seq<Seq<char>>)
    ensures
        forall|i: int, j: int, b: int|
            #![trigger category_order(configured, cats)[i], category_order(configured, cats)[j], cats[b]]
            configured.len() <= i < j < category_order(configured, cats).len() && 0 <= b < cats.len()
                && cats[b] == category_order(configured, cats)[j] ==> first_seen_before(
                cats,
                category_order(configured, cats)[i],
                b,
            ),
    decreases cats.len(),
{
    if cats.len() > 0 {
        let prev = category_order(configured, cats.drop_last());
        let o = category_order(configured, cats);
        lemma_category_order(configured, cats.drop_last());
        lemma_category_order_first_seen(configured, cats.drop_last());
        let c0 = cats.drop_last();
        let last = cats.len() - 1;
        assert forall|i: int, j: int, b: int|
            configured.len() <= i < j < o.len() && 0 <= b < cats.len() && cats[b] == o[j] implies first_seen_before(
            cats,
            o[i],
            b,
        ) by {
            assert(o[i] == prev[i]);
            assert(!configured.contains(prev[i]));
            assert(c0.contains(prev[i]));
            let a0 = choose|a: int| 0 <= a < c0.len() && c0[a] == prev[i];
            assert(cats[a0] == o[i]);
            if b < last {
                assert(cats[b] == c0[b]);
                if j < prev.len() {
                    assert(o[j] == prev[j]);
                    assert(c0[b] == prev[j]);
                    assert(first_seen_before(c0, prev[i], b));
                    let a1 = choose|a: int| 0 <= a < b && #[trigger] c0[a] == prev[i];
                    assert(cats[a1] == o[i]);
                } else {
                    assert(o[j] == cats.last());
                    assert(c0.contains(cats.last()));
                    assert(prev.contains(c0[b]));
                }
            }
        }
    }
}

/// `x` occurs in `s` before position `b`.
pub open spec fn first_seen_before(s: Seq<Seq<char>>, x: Seq<char>, b: int) -> bool {
    exists|a: int| 0 <= a < b && #[trigger] s[a] == x
}

/// The merged commands come out ordered by category position and name, each
/// discovered command and each static command exactly once, and every
/// command's category is in the category order.
pub proof fn lemma_load_and_merge_sorted_permutation(
    found: Seq<DiscoveredView>,
    configured: Seq<Seq<char>>,
    entries: Seq<EntryView>,
)
    ensures
        ({
            let (cmds, order) = spec_load_and_merge(found, configured, entries);
            let merged = merged_commands(found, entries);
            &&& crate::sorting::is_sorted_by(cmds, command_le(order))
            &&& cmds.to_multiset() == merged.to_multiset()
            &&& cmds.len() == merged.len()
            &&& forall|i: int| 0 <= i < cmds.len() ==> order.contains(#[trigger] cmds[i].category)
            &&& forall|i: int, j: int|
                #![trigger cmds[i], cmds[j]]
                0 <= i < j < cmds.len() ==> category_position(order, cmds[i].category)
                    < category_position(order, cmds[j].category) || (category_position(
                    order,
                    cmds[i].category,
                ) == category_position(order, cmds[j].category) && !name_lt(
                    cmds[j].name,
                    cmds[i].name,
                ))
        }),
{
    let merged = merged_commands(found, entries);
    let order = category_order(configured, categories_of(merged));
    lemma_command_le_total_preorder(order);
    crate::sorting::lemma_sort_by_sorted(merged, command_le(order));
    crate::sorting::lemma_sort_by_permutes(merged, command_le(order));
    lemma_category_order(configured, categories_of(merged));
    let cmds = sort_by(merged, command_le(order));
    assert forall|i: int| 0 <= i < cmds.len() implies order.contains(#[trigger] cmds[i].category) by {
        vstd::seq_lib::to_multiset_contains(cmds, cmds[i]);
        assert(cmds.contains(cmds[i]));
        vstd::seq_lib::to_multiset_contains(merged, cmds[i]);
        let w = choose|w: int| 0 <= w < merged.len() && merged[w] == cmds[i];
        assert(categories_of(merged)[w] == cmds[i].category);
    }
}

/// Commands whose keys tie keep their merged order: the sort is stable.
pub proof fn lemma_load_and_merge_stable(
    found: Seq<DiscoveredView>,
    configured: Seq<Seq<char>>,
    entries: Seq<EntryView>,
    k: CommandView,
)
    ensures
        ({
            let (cmds, order) = spec_load_and_merge(found, configured, entries);
            let le = command_le(order);
            cmds.filter(|e: CommandView| crate::sorting::equiv(le, e, k)) == merged_commands(
                found,
                entries,
            ).filter(|e: CommandView| crate::sorting::equiv(le, e, k))
        }),
{
    let merged = merged_commands(found, entries);
    let order = category_order(configured, categories_of(merged));
    lemma_command_le_total_preorder(order);
    crate::sorting::lemma_sort_by_stable(merged, command_le(order), k);
}

} // verus!

verus! {

/// Every discovered command is listed, with the last entry of its name (if
/// any) applied, and so is every entry that no discovered command is named
/// after.
pub proof fn lemma_every_command_listed(
    found: Seq<DiscoveredView>,
    configured: Seq<Seq<char>>,
    entries: Seq<EntryView>,
)
    ensures
        ({
            let cmds = spec_load_and_merge(found, configured, entries).0;
            &&& forall|i: int|
                0 <= i < found.len() ==> cmds.contains(
                    discovered_command(#[trigger] found[i], last_entry_named(entries, found[i].name)),
                )
            &&& forall|k: int|
                0 <= k < entries.len() && !is_discovered_name(found, #[trigger] entries[k].name)
                    ==> cmds.contains(static_command(entries[k]))
        }),
{
    let merged = merged_commands(found, entries);
    let order = category_order(configured, categories_of(merged));
    let cmds = sort_by(merged, command_le(order));
    crate::sorting::lemma_sort_by_permutes(merged, command_le(order));
    assert forall|i: int| 0 <= i < found.len() implies cmds.contains(
        discovered_command(#[trigger] found[i], last_entry_named(entries, found[i].name)),
    ) by {
        let c = discovered_command(found[i], last_entry_named(entries, found[i].name));
        assert(merged[i] == c);
        vstd::seq_lib::to_multiset_contains(merged, c);
        vstd::seq_lib::to_multiset_contains(cmds, c);
    }
    assert forall|k: int|
        0 <= k < entries.len() && !is_discovered_name(found, #[trigger] entries[k].name) implies cmds.contains(
        static_command(entries[k]),
    ) by {
        let c = static_command(entries[k]);
        lemma_static_commands_listed(found, entries, k);
        let w = choose|w: int| 0 <= w < static_commands(found, entries).len() && static_commands(found, entries)[w] == c;
        assert(merged[discovered_commands(found, entries).len() + w] == c);
        vstd::seq_lib::to_multiset_contains(merged, c);
        vstd::seq_lib::to_multiset_contains(cmds, c);
    }
}

proof fn lemma_static_commands_listed(found: Seq<DiscoveredView>, entries: Seq<EntryView>, k: int)
    requires
        0 <= k < entries.len(),
        !is_discovered_name(found, entries[k].name),
    ensures
        static_commands(found, entries).contains(static_command(entries[k])),
    decreases entries.len(),
{
    let prev = static_commands(found, entries.drop_last());
    if k == entries.len() - 1 {
        assert(static_commands(found, entries).last() == static_command(entries[k]));
    } else {
        assert(entries.drop_last()[k] == entries[k]);
        lemma_static_commands_listed(found, entries.drop_last(), k);
        let w = choose|w: int| 0 <= w < prev.len() && prev[w] == static_command(entries[k]);
        assert(static_commands(found, entries)[w] == prev[w]);
    }
}

} // verus!

verus! {

/// Entry `k` is the last entry named `name`.
pub open spec fn is_last_named(entries: Seq<EntryView>, name: Seq<char>, k: int) -> bool {
    0 <= k < entries.len() && entries[k].name == name && forall|j: int|
        k < j < entries.len() ==> entries[j].name != name
}

proof fn lemma_last_entry_named(entries: Seq<EntryView>, name: Seq<char>)
    ensures
        match last_entry_named(entries, name) {
            Some(e) => exists|k: int| is_last_named(entries, name, k) && entries[k] == e,
            None => forall|k: int| 0 <= k < entries.len() ==> entries[k].name != name,
        },
    decreases entries.len(),
{
    if entries.len() > 0 {
        let n = entries.len() - 1;
        if entries.last().name == name {
            assert(is_last_named(entries, name, n));
        } else {
            let prev = entries.drop_last();
            lemma_last_entry_named(prev, name);
            match last_entry_named(prev, name) {
                Some(e) => {
                    let k = choose|k: int| is_last_named(prev, name, k) && prev[k] == e;
                    assert(entries[k] == prev[k]);
                    assert forall|j: int| k < j < entries.len() implies entries[j].name != name by {
                        if j < n {
                            assert(entries[j] == prev[j]);
                        }
                    }
                    assert(is_last_named(entries, name, k));
                },
                None => {
                    assert forall|k: int| 0 <= k < entries.len() implies entries[k].name != name by {
                        if k < n {
                            assert(entries[k] == prev[k]);
                        }
                    }
                },
            }
        }
    }
}

/// Each static command comes from an entry that names no discovered command.
proof fn lemma_static_command_origin(found: Seq<DiscoveredView>, entries: Seq<EntryView>, w: int) -> (k: int)
    requires
        0 <= w < static_commands(found, entries).len(),
    ensures
        0 <= k < entries.len(),
        !is_discovered_name(found, entries[k].name),
        static_commands(found, entries)[w] == static_command(entries[k]),
    decreases entries.len(),
{
    let prev = static_commands(found, entries.drop_last());
    if w < prev.len() {
        let k = lemma_static_command_origin(found, entries.drop_last(), w);
        assert(entries[k] == entries.drop_last()[k]);
        k
    } else {
        (entries.len() - 1) as int
    }
}

/// The last entry of a name is unique.
proof fn lemma_last_named_unique(entries: Seq<EntryView>, name: Seq<char>, k1: int, k2: int)
    requires
        is_last_named(entries, name, k1),
        is_last_named(entries, name, k2),
    ensures
        k1 == k2,
{
}

/// How the configuration acts on the commands, said directly. A discovered
/// command with entries of its name is listed with the last such entry's
/// description (else its definition), example and category (else `Other`); a
/// discovered command without entries keeps its definition as description,
/// has no example, and is in `Other`; an entry that names no discovered
/// command is listed as a command with its description (else empty), no
/// definition, its example, and its category (else `Other`). Every listed
/// command is one of these: a discovered one, with its name and definition,
/// or an entry that names no discovered command, with no definition.
#[verifier::spinoff_prover]
#[verifier::rlimit(50)]
pub proof fn lemma_overrides_applied(
    found: Seq<DiscoveredView>,
    configured: Seq<Seq<char>>,
    entries: Seq<EntryView>,
)
    ensures
        ({
            let cmds = spec_load_and_merge(found, configured, entries).0;
            let other = seq!['O', 't', 'h', 'e', 'r'];
            &&& forall|i: int, k: int|
                0 <= i < found.len() && is_last_named(entries, #[trigger] found[i].name, k)
                    ==> cmds.contains(
                    CommandView {
                        name: found[i].name,
                        description: match #[trigger] entries[k].description {
                            Some(d) => d,
                            None => found[i].definition,
                        },
                        definition: found[i].definition,
                        example: entries[k].example,
                        category: match entries[k].category {
                            Some(c) => c,
                            None => other,
                        },
                    },
                )
            &&& forall|i: int|
                0 <= i < found.len() && (forall|k: int|
                    0 <= k < entries.len() ==> entries[k].name != #[trigger] found[i].name)
                    ==> cmds.contains(
                    CommandView {
                        name: found[i].name,
                        description: found[i].definition,
                        definition: found[i].definition,
                        example: None,
                        category: other,
                    },
                )
            &&& forall|k: int|
                0 <= k < entries.len() && (forall|i: int|
                    0 <= i < found.len() ==> found[i].name != #[trigger] entries[k].name)
                    ==> cmds.contains(
                    CommandView {
                        name: entries[k].name,
                        description: match entries[k].description {
                            Some(d) => d,
                            None => Seq::empty(),
                        },
                        definition: Seq::empty(),
                        example: entries[k].example,
                        category: match entries[k].category {
                            Some(c) => c,
                            None => other,
                        },
                    },
                )
            &&& forall|j: int|
                #![trigger cmds[j]]
                0 <= j < cmds.len() ==> (exists|i: int|
                    0 <= i < found.len() && #[trigger] found[i].name == cmds[j].name
                        && found[i].definition == cmds[j].definition) || (exists|k: int|
                    0 <= k < entries.len() && #[trigger] entries[k].name == cmds[j].name
                        && cmds[j].definition.len() == 0 && forall|i: int|
                        0 <= i < found.len() ==> found[i].name != entries[k].name)
        }),
{
    lemma_every_command_listed(found, configured, entries);
    let merged = merged_commands(found, entries);
    let order = category_order(configured, categories_of(merged));
    let cmds = sort_by(merged, command_le(order));
    crate::sorting::lemma_sort_by_permutes(merged, command_le(order));
    assert forall|j: int| #![trigger cmds[j]] 0 <= j < cmds.len() implies (exists|i: int|
        0 <= i < found.len() && #[trigger] found[i].name == cmds[j].name && found[i].definition
            == cmds[j].definition) || (exists|k: int|
        0 <= k < entries.len() && #[trigger] entries[k].name == cmds[j].name
            && cmds[j].definition.len() == 0 && forall|i: int|
            0 <= i < found.len() ==> found[i].name != entries[k].name) by {
        vstd::seq_lib::to_multiset_contains(cmds, cmds[j]);
        assert(cmds.contains(cmds[j]));
        vstd::seq_lib::to_multiset_contains(merged, cmds[j]);
        let w = choose|w: int| 0 <= w < merged.len() && merged[w] == cmds[j];
        let nd = discovered_commands(found, entries).len();
        if w < nd {
            assert(merged[w] == discovered_commands(found, entries)[w]);
            assert(found[w].name == cmds[j].name);
        } else {
            let st = static_commands(found, entries);
            assert(merged[w] == st[w - nd]);
            let k = lemma_static_command_origin(found, entries, w - nd);
            assert(entries[k].name == cmds[j].name);
            assert forall|i: int| 0 <= i < found.len() implies found[i].name != entries[k].name by {
                if found[i].name == entries[k].name {
                    assert(is_discovered_name(found, entries[k].name));
                }
            }
        }
    }
    assert(other_category() == seq!['O', 't', 'h', 'e', 'r']);
    assert forall|i: int, k: int|
        0 <= i < found.len() && is_last_named(entries, #[trigger] found[i].name, k) implies last_entry_named(
        entries,
        found[i].name,
    ) == Some(#[trigger] entries[k]) by {
        lemma_last_entry_named(entries, found[i].name);
        match last_entry_named(entries, found[i].name) {
            Some(e) => {
                let k2 = choose|k2: int| is_last_named(entries, found[i].name, k2) && entries[k2] == e;
                lemma_last_named_unique(entries, found[i].name, k, k2);
            },
            None => {
                assert(entries[k].name == found[i].name);
            },
        }
    }
    assert forall|i: int|
        0 <= i < found.len() && (forall|k: int|
            0 <= k < entries.len() ==> entries[k].name != #[trigger] found[i].name) implies last_entry_named(
        entries,
        found[i].name,
    ) is None by {
        lemma_last_entry_named(entries, found[i].name);
        match last_entry_named(entries, found[i].name) {
            Some(e) => {
                let k2 = choose|k2: int| is_last_named(entries, found[i].name, k2) && entries[k2] == e;
                assert(entries[k2].name == found[i].name);
            },
            None => {},
        }
    }
    assert forall|k: int|
        0 <= k < entries.len() && (forall|i: int|
            0 <= i < found.len() ==> found[i].name != #[trigger] entries[k].name) implies !is_discovered_name(
        found,
        entries[k].name,
    ) by {
        if is_discovered_name(found, entries[k].name) {
            let i = choose|i: int| 0 <= i < found.len() && #[trigger] found[i].name == entries[k].name;
            assert(found[i].name == entries[k].name);
        }
    }
}

} // verus!

verus! {

/// An entry names no discovered command.
pub open spec fn names_no_discovered(found: Seq<DiscoveredView>) -> spec_fn(EntryView) -> bool {
    |e: EntryView| !is_discovered_name(found, e.name)
}

proof fn lemma_static_commands_len(found: Seq<DiscoveredView>, entries: Seq<EntryView>)
    ensures
        static_commands(found, entries).len() == entries.filter(names_no_discovered(found)).len(),
    decreases entries.len(),
{
    reveal(Seq::filter);
    if entries.len() > 0 {
        lemma_static_commands_len(found, entries.drop_last());
    }
}

/// How many commands are listed: every discovered command once, and one
/// more for each entry that names no discovered command (entries of a
/// discovered name only change that command).
pub proof fn lemma_load_and_merge_count(
    found: Seq<DiscoveredView>,
    configured: Seq<Seq<char>>,
    entries: Seq<EntryView>,
)
    ensures
        spec_load_and_merge(found, configured, entries).0.len() == found.len() + entries.filter(
            names_no_discovered(found),
        ).len(),
{
    let merged = merged_commands(found, entries);
    let order = category_order(configured, categories_of(merged));
    crate::sorting::lemma_sort_by_permutes(merged, command_le(order));
    lemma_static_commands_len(found, entries);
}

} // verus!
