//! Choosing one of a few options.

use vstd::prelude::*;

use crate::text;

verus! {

/// An option to choose.
#[derive(Clone, Copy, Debug, PartialEq, Eq)]
pub struct PickerOption {
    pub value: &'static str,
    pub help: &'static str,
    pub enabled: bool,
}

#[verifier::ext_equal]
pub struct OptionView {
    pub value: Seq<char>,
    pub help: Seq<char>,
    pub enabled: bool,
}

impl View for PickerOption {
    type V = OptionView;

    open spec fn view(&self) -> OptionView {
        OptionView { value: self.value@, help: self.help@, enabled: self.enabled }
    }
}

impl DeepView for PickerOption {
    type V = OptionView;

    open spec fn deep_view(&self) -> OptionView {
        self@
    }
}

/// How a vault can be kept.
pub open spec fn storage_choices() -> Seq<OptionView> {
    seq![
        OptionView { value: "local"@, help: "Local Markdown vault"@, enabled: true },
        OptionView { value: "obsidian"@, help: "Obsidian-compatible Markdown vault"@, enabled: true },
        OptionView { value: "git"@, help: "Git-backed Markdown vault"@, enabled: true },
    ]
}

pub fn storage_options() -> (options: &'static [PickerOption])
    ensures
        options.deep_view() == storage_choices(),
{
    let options: &'static [PickerOption] = &[
        PickerOption { value: "local", help: "Local Markdown vault", enabled: true },
        PickerOption { value: "obsidian", help: "Obsidian-compatible Markdown vault", enabled: true },
        PickerOption { value: "git", help: "Git-backed Markdown vault", enabled: true },
    ];
    assert(options.deep_view() =~= storage_choices());
    options
}

/// How memories can be searched.
pub open spec fn search_choices() -> Seq<OptionView> {
    seq![
        OptionView { value: "auto"@, help: "Use grep and BM25 when an index exists"@, enabled: true },
        OptionView { value: "grep"@, help: "Search Markdown directly"@, enabled: true },
        OptionView { value: "bm25"@, help: "Search the local SQLite index"@, enabled: true },
        OptionView { value: "vector"@, help: "Unavailable in v1"@, enabled: false },
        OptionView { value: "all"@, help: "Use every configured local search source"@, enabled: true },
    ]
}

pub fn search_options() -> (options: &'static [PickerOption])
    ensures
        options.deep_view() == search_choices(),
{
    let options: &'static [PickerOption] = &[
        PickerOption { value: "auto", help: "Use grep and BM25 when an index exists", enabled: true },
        PickerOption { value: "grep", help: "Search Markdown directly", enabled: true },
        PickerOption { value: "bm25", help: "Search the local SQLite index", enabled: true },
        PickerOption { value: "vector", help: "Unavailable in v1", enabled: false },
        PickerOption { value: "all", help: "Use every configured local search source", enabled: true },
    ];
    assert(options.deep_view() =~= search_choices());
    options
}

/// Where a selection moves.
#[derive(Clone, Copy, Debug, PartialEq, Eq, Structural)]
pub enum Motion {
    Next,
    Previous,
}

/// The place next to another, round and round.
pub open spec fn beside(at: int, length: int, motion: Motion) -> int {
    match motion {
        Motion::Next => if at + 1 >= length {
            0
        } else {
            at + 1
        },
        Motion::Previous => if at <= 0 {
            length - 1
        } else {
            at - 1
        },
    }
}

pub fn step_beside(at: usize, length: usize, motion: Motion) -> (next: usize)
    requires
        at < length,
    ensures
        next == beside(at as int, length as int, motion),
        next < length,
{
    match motion {
        Motion::Next => if at + 1 >= length {
            0
        } else {
            at + 1
        },
        Motion::Previous => if at == 0 {
            length - 1
        } else {
            at - 1
        },
    }
}

/// Where a selection comes to rest: at the first enabled option on its way.
pub open spec fn moved(options: Seq<OptionView>, at: int, motion: Motion, tries: nat) -> int
    decreases tries,
{
    if tries == 0 {
        at
    } else {
        let next = beside(at, options.len() as int, motion);
        if options[next].enabled {
            next
        } else {
            moved(options, next, motion, (tries - 1) as nat)
        }
    }
}

/// The place of an option with that value; the number of options if there is none.
pub open spec fn value_index(options: Seq<OptionView>, value: Seq<char>) -> int
    decreases options.len(),
{
    if options.len() == 0 || options[0].value == value {
        0
    } else {
        1 + value_index(options.drop_first(), value)
    }
}

/// The place of the first enabled option; the number of options if there is none.
pub open spec fn enabled_index(options: Seq<OptionView>) -> int
    decreases options.len(),
{
    if options.len() == 0 || options[0].enabled {
        0
    } else {
        1 + enabled_index(options.drop_first())
    }
}

/// The option that a picker starts at: the current one, else the first that is
/// enabled.
pub open spec fn starting_at(options: Seq<OptionView>, current: Seq<char>) -> int {
    if value_index(options, current) < options.len() {
        value_index(options, current)
    } else if enabled_index(options) < options.len() {
        enabled_index(options)
    } else {
        0
    }
}

pub fn start_at(options: &[PickerOption], current: &str) -> (selected: usize)
    requires
        options.len() > 0,
    ensures
        selected == starting_at(options.deep_view(), current@),
        selected < options.len(),
{
    let ghost all = options.deep_view();
    let mut i: usize = 0;
    assert(all.skip(0) =~= all);
    while i < options.len()
        invariant
            i <= options.len(),
            all == options.deep_view(),
            value_index(all, current@) == i + value_index(all.skip(i as int), current@),
        decreases options.len() - i,
    {
        assert(all.skip(i as int)[0] == options[i as int]@);
        if text::same(options[i].value, current) {
            return i;
        }
        assert(all.skip(i as int).drop_first() =~= all.skip(i + 1));
        i = i + 1;
    }
    assert(value_index(all, current@) == all.len());
    let mut k: usize = 0;
    while k < options.len()
        invariant
            k <= options.len(),
            options.len() > 0,
            all == options.deep_view(),
            value_index(all, current@) == all.len(),
            enabled_index(all) == k + enabled_index(all.skip(k as int)),
        decreases options.len() - k,
    {
        assert(all.skip(k as int)[0] == options[k as int]@);
        if options[k].enabled {
            return k;
        }
        assert(all.skip(k as int).drop_first() =~= all.skip(k + 1));
        k = k + 1;
    }
    0
}

pub fn move_to_enabled(options: &[PickerOption], at: usize, motion: Motion) -> (selected: usize)
    requires
        at < options.len(),
    ensures
        selected == moved(options.deep_view(), at as int, motion, options.len() as nat),
        selected < options.len(),
{
    let ghost all = options.deep_view();
    let mut selected = at;
    let mut tries: usize = options.len();
    while tries > 0
        invariant
            tries <= options.len(),
            selected < options.len(),
            all == options.deep_view(),
            moved(all, at as int, motion, options.len() as nat) == moved(
                all,
                selected as int,
                motion,
                tries as nat,
            ),
        decreases tries,
    {
        let next = step_beside(selected, options.len(), motion);
        assert(all[next as int] == options[next as int]@);
        selected = next;
        if options[selected].enabled {
            return selected;
        }
        tries = tries - 1;
    }
    selected
}

// Laws.

/// The place `count` steps away.
pub open spec fn steps_away(at: int, length: int, motion: Motion, count: nat) -> int
    decreases count,
{
    if count == 0 {
        at
    } else {
        steps_away(beside(at, length, motion), length, motion, (count - 1) as nat)
    }
}

proof fn lemma_moved(options: Seq<OptionView>, at: int, motion: Motion, tries: nat, count: nat)
    requires
        0 <= at < options.len(),
        0 < count <= tries,
        options[steps_away(at, options.len() as int, motion, count)].enabled,
    ensures
        0 <= moved(options, at, motion, tries) < options.len(),
        options[moved(options, at, motion, tries)].enabled,
    decreases tries,
{
    let next = beside(at, options.len() as int, motion);
    if !options[next].enabled {
        if count == 1 {
            assert(steps_away(next, options.len() as int, motion, 0) == next);
        } else {
            lemma_moved(options, next, motion, (tries - 1) as nat, (count - 1) as nat);
        }
    }
}

proof fn lemma_steps_forward(at: int, length: int, count: nat)
    requires
        0 <= at < length,
        count <= length,
    ensures
        steps_away(at, length, Motion::Next, count) == (if at + count < length {
            at + count
        } else {
            at + count - length
        }),
    decreases count,
{
    if count > 0 {
        let next = beside(at, length, Motion::Next);
        lemma_steps_forward(next, length, (count - 1) as nat);
    }
}

proof fn lemma_steps_back(at: int, length: int, count: nat)
    requires
        0 <= at < length,
        count <= length,
    ensures
        steps_away(at, length, Motion::Previous, count) == (if at >= count {
            at - count
        } else {
            at - count + length
        }),
    decreases count,
{
    if count > 0 {
        let next = beside(at, length, Motion::Previous);
        lemma_steps_back(next, length, (count - 1) as nat);
    }
}

/// A selection that moves comes to rest on an enabled option, if there is one.
pub proof fn selection_rests_on_enabled(options: Seq<OptionView>, at: int, motion: Motion, open: int)
    requires
        0 <= at < options.len(),
        0 <= open < options.len(),
        options[open].enabled,
    ensures
        0 <= moved(options, at, motion, options.len()) < options.len(),
        options[moved(options, at, motion, options.len())].enabled,
{
    let length = options.len() as int;
    let count: nat = match motion {
        Motion::Next => if open > at {
            (open - at) as nat
        } else {
            (open - at + length) as nat
        },
        Motion::Previous => if open < at {
            (at - open) as nat
        } else {
            (at - open + length) as nat
        },
    };
    lemma_steps_forward(at, length, count);
    lemma_steps_back(at, length, count);
    lemma_moved(options, at, motion, options.len(), count);
}

} // verus!
