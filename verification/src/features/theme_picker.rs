//! The picker of themes.

use vstd::prelude::*;
use vstd::string::*;

use crate::features::context::{
    choices, picker, picker_layer, push_entry, Choice, Ctx, PickerEntry, PickerOwner, PickerPayload,
    Target,
};
use crate::geometry::numbers;
use crate::order::{orders, sort_order, sorts, stable_order, the_order_exists, Ordered};
use crate::text::{
    comes_before, lemma_precedes_strict, lemma_precedes_transitive, precedes, same_text, texts,
};

verus! {

broadcast use vstd::string::group_string_axioms;

/// A theme that can be picked.
#[derive(Debug)]
pub struct Theme {
    pub name: String,
    pub light: bool,
}

/// Whether a theme is listed before another: the active one first, the others
/// by name.
pub open spec fn theme_precedes(a: Seq<char>, b: Seq<char>, active: Seq<char>) -> bool {
    (a == active && b != active) || (a == active) == (b == active) && precedes(a, b)
}

/// The order of some themes.
pub open spec fn theme_order(list: Seq<Theme>, active: Seq<char>) -> spec_fn(int, int) -> bool {
    |i: int, j: int| theme_precedes(list[i].name@, list[j].name@, active)
}

/// The indices of some themes, in their order.
pub open spec fn listed(list: Seq<Theme>, active: Seq<char>) -> Seq<int> {
    stable_order(list.len() as int, theme_order(list, active))
}

/// The entry for a theme.
pub open spec fn theme_choice(theme: Theme, index: int) -> Choice {
    Choice {
        label: theme.name@,
        detail: if theme.light {
            "(light)"@
        } else {
            "(dark)"@
        },
        enabled: true,
        payload: Target::Index(index),
    }
}

/// The entries for some themes.
pub open spec fn theme_choices(list: Seq<Theme>, active: Seq<char>) -> Seq<Choice> {
    let order = listed(list, active);
    Seq::new(list.len(), |k: int| theme_choice(list[order[k]], k))
}

/// The names of some themes, in the order of their entries.
pub open spec fn theme_names(list: Seq<Theme>, active: Seq<char>) -> Seq<Seq<char>> {
    let order = listed(list, active);
    Seq::new(list.len(), |k: int| list[order[k]].name@)
}

struct ThemeList<'a> {
    themes: &'a Vec<Theme>,
    active: &'a str,
}

impl<'a> Ordered for ThemeList<'a> {
    closed spec fn count(&self) -> nat {
        self.themes@.len()
    }

    closed spec fn before(&self, i: int, j: int) -> bool {
        theme_precedes(self.themes@[i].name@, self.themes@[j].name@, self.active@)
    }

    proof fn before_is_asymmetric(&self, i: int, j: int) {
        lemma_precedes_strict(self.themes@[i].name@, self.themes@[j].name@);
    }

    proof fn after_is_transitive(&self, i: int, j: int, k: int) {
        let (a, b, c) = (self.themes@[i].name@, self.themes@[j].name@, self.themes@[k].name@);
        lemma_precedes_strict(a, b);
        lemma_precedes_strict(b, c);
        lemma_precedes_strict(a, c);
        if precedes(c, b) && precedes(b, a) {
            lemma_precedes_transitive(c, b, a);
        }
    }

    fn is_before(&self, i: usize, j: usize) -> (result: bool) {
        let left = self.themes[i].name.as_str();
        let right = self.themes[j].name.as_str();
        let left_active = same_text(left, self.active);
        let right_active = same_text(right, self.active);
        left_active && !right_active || left_active == right_active && comes_before(left, right)
    }
}

/// The picker of themes.
#[derive(Debug)]
pub struct ThemePicker {
    names: Vec<String>,
}

impl View for ThemePicker {
    type V = Seq<Seq<char>>;

    /// The names behind the entries of the picker.
    closed spec fn view(&self) -> Seq<Seq<char>> {
        texts(self.names@)
    }
}

impl Default for ThemePicker {
    fn default() -> (theme_picker: Self)
        ensures
            theme_picker@ == Seq::<Seq<char>>::empty(),
    {
        let theme_picker = ThemePicker { names: Vec::new() };
        assert(texts(theme_picker.names@) =~= Seq::<Seq<char>>::empty());
        theme_picker
    }
}

impl ThemePicker {
    /// Lists all themes, the active one first.
    pub fn open(&mut self, ctx: &mut Ctx, active: &str, themes: &Vec<Theme>)
        ensures
            final(self)@ == theme_names(themes@, active@),
            final(ctx)@ == old(ctx)@.showing(
                picker_layer(
                    "Themes"@,
                    Seq::empty(),
                    theme_choices(themes@, active@),
                    PickerOwner::Theme,
                ),
            ),
    {
        let ghost total = themes@.len() as int;
        let list = ThemeList { themes, active };
        let order = sort_order(&list, themes.len(), Ghost(theme_order(themes@, active@)));
        let mut entries: Vec<PickerEntry> = Vec::new();
        let mut names: Vec<String> = Vec::new();
        let mut k: usize = 0;
        while k < order.len()
            invariant
                k <= order@.len() == total,
                total == themes@.len(),
                numbers(order@) == listed(themes@, active@),
                sorts(numbers(order@), total, theme_order(themes@, active@)),
                choices(entries@) =~= theme_choices(themes@, active@).take(k as int),
                texts(names@) =~= theme_names(themes@, active@).take(k as int),
            decreases order@.len() - k,
        {
            assert(numbers(order@)[k as int] == order@[k as int]);
            let theme = &themes[order[k]];
            let detail = if theme.light {
                "(light)".to_string()
            } else {
                "(dark)".to_string()
            };
            push_entry(
                &mut entries,
                PickerEntry {
                    label: theme.name.clone(),
                    detail,
                    enabled: true,
                    payload: PickerPayload::Index(k),
                },
            );
            let name = theme.name.clone();
            let ghost before = names@;
            names.push(name);
            assert(texts(names@) =~= texts(before).push(name@));
            k += 1;
        }
        self.names = names;
        proof {
            assert(theme_choices(themes@, active@).take(total) =~= theme_choices(themes@, active@));
            assert(theme_names(themes@, active@).take(total) =~= theme_names(themes@, active@));
            reveal_strlit("");
            assert(""@ =~= Seq::<char>::empty());
        }
        ctx.show(picker("Themes", "", entries, PickerOwner::Theme));
    }

    /// An entry of the picker was accepted: the name of the theme to apply.
    pub fn pick(&mut self, ctx: &mut Ctx, index: usize) -> (name: Option<String>)
        ensures
            final(self)@ == old(self)@,
            final(ctx)@ == old(ctx)@.popped(),
            match name {
                Some(name) => index < old(self)@.len() && name@ == old(self)@[index as int],
                None => index >= old(self)@.len(),
            },
    {
        ctx.pop();
        if index < self.names.len() {
            Some(self.names[index].clone())
        } else {
            None
        }
    }
}

/// Says how a theme that was picked went in.
pub fn theme_applied(ctx: &mut Ctx, name: &str, result: Result<(), String>)
    ensures
        final(ctx)@ == old(ctx)@.said(
            match result {
                Ok(_) => "theme: "@ + name@,
                Err(error) => "theme failed: "@ + error@,
            },
        ),
{
    match result {
        Ok(_) => {
            let mut text = "theme: ".to_string();
            text.append(name);
            ctx.say(text.as_str());
        },
        Err(error) => {
            let mut text = "theme failed: ".to_string();
            text.append(error.as_str());
            ctx.say(text.as_str());
        },
    }
}

/// The active theme is listed first.
pub proof fn the_active_theme_comes_first(list: Seq<Theme>, active: Seq<char>, n: int)
    requires
        0 <= n < list.len(),
        list[n].name@ == active,
    ensures
        theme_names(list, active)[0] == active,
{
    let before = theme_order(list, active);
    assert(orders(list.len() as int, before)) by {
        assert forall|i: int, j: int|
            0 <= i < list.len() && 0 <= j < list.len() && #[trigger] before(i, j) implies !before(
            j,
            i,
        ) by {
            lemma_precedes_strict(list[i].name@, list[j].name@);
        }
        assert forall|i: int, j: int, k: int|
            0 <= i < list.len() && 0 <= j < list.len() && 0 <= k < list.len() && !(
            #[trigger] before(i, j)) && !(#[trigger] before(j, k)) implies !before(i, k) by {
            let (a, b, c) = (list[i].name@, list[j].name@, list[k].name@);
            lemma_precedes_strict(a, b);
            lemma_precedes_strict(b, c);
            lemma_precedes_strict(a, c);
            if precedes(c, b) && precedes(b, a) {
                lemma_precedes_transitive(c, b, a);
            }
        }
    }
    the_order_exists(list.len() as int, before);
    let order = listed(list, active);
    assert(order.contains(n));
    let k = choose|k: int| 0 <= k < order.len() && order[k] == n;
    if k > 0 {
        let a = order[0];
        let b = order[k];
        assert(before(a, b) || !before(b, a) && a < b);
        assert(before(a, b) == theme_precedes(list[a].name@, list[b].name@, active));
        assert(before(b, a) == theme_precedes(list[b].name@, list[a].name@, active));
    }
}

/// The theme that an entry applies is the one that the entry names.
pub proof fn the_picked_theme_is_the_one_shown(list: Seq<Theme>, active: Seq<char>, index: int)
    requires
        0 <= index < list.len(),
    ensures
        theme_names(list, active)[index] == theme_choices(list, active)[index].label,
{
}

} // verus!
