//! What the screen shows: the list of modules, the line on progress, and the
//! resume button with its look and the place it takes.
//!
//! Painting is the caller's part. This module decides what is painted where.

use crate::app::App;
use crate::order::{all_digits, decimal_value, is_digit};
use crate::text::chars_of;
use vstd::prelude::*;

verus! {

/// The state of a button.
#[derive(Debug, Clone, Copy, PartialEq, Eq, Structural)]
pub enum State {
    Normal,
    Selected,
    Active,
}

/// A colour of the terminal.
#[derive(Debug, Clone, Copy, PartialEq, Eq, Structural)]
pub enum Color {
    /// The terminal's own colour.
    Reset,
    Black,
    Yellow,
}

/// The colours of a button.
#[derive(Debug, Clone, Copy, PartialEq, Eq, Structural)]
pub struct Theme {
    pub text: Color,
    pub background: Color,
    pub highlight: Color,
    pub shadow: Color,
}

/// The colours in which something is painted; `None` leaves a colour as it is.
#[derive(Debug, Clone, Copy, PartialEq, Eq, Structural)]
pub struct Style {
    pub fg: Option<Color>,
    pub bg: Option<Color>,
}

/// A rectangle of the screen, in cells.
#[derive(Debug, Clone, Copy, PartialEq, Eq, Structural)]
pub struct Rect {
    pub x: u16,
    pub y: u16,
    pub width: u16,
    pub height: u16,
}

/// Where a button is painted: its frame, and inside the frame its label.
#[derive(Debug, Clone, Copy, PartialEq, Eq, Structural)]
pub struct ButtonLayout {
    pub frame: Rect,
    pub label: Rect,
}

/// A button with a label.
#[derive(Debug, Clone, PartialEq, Eq)]
pub struct Button {
    pub label: String,
    pub theme: Theme,
    pub state: State,
}

/// The number of columns that a text takes on the screen.
pub uninterp spec fn display_width(text: Seq<char>) -> nat;

/// The theme of a button that has been given none: black on yellow.
pub open spec fn default_theme() -> Theme {
    Theme {
        text: Color::Black,
        background: Color::Yellow,
        highlight: Color::Reset,
        shadow: Color::Reset,
    }
}

/// `a` less `b`, and zero where `b` is the greater.
pub open spec fn less(a: int, b: int) -> int {
    if a >= b {
        a - b
    } else {
        0
    }
}

/// The columns between the left edge of `area` and the frame of a button
/// whose label is `label_width` columns wide: half of what the area has
/// beyond the label, its padding and its border.
pub open spec fn left_gap(area: Rect, label_width: int) -> int {
    less(area.width as int, label_width + 6) / 2
}

/// Whether a button with a label of `label_width` columns can be laid out in
/// `area` with every coordinate inside the range of the screen.
pub open spec fn fits(area: Rect, label_width: int) -> bool {
    &&& label_width + 6 <= u16::MAX
    &&& area.x + left_gap(area, label_width) + 1 <= u16::MAX
    &&& area.y + 1 <= u16::MAX
}

/// The layout of a button in `area`. The frame is as wide as the label and
/// four columns of padding, but no wider than the area, as high as the area,
/// and stands `left_gap` columns from its left edge. The label lies inside the
/// frame, one cell from each side.
pub open spec fn layout_of(area: Rect, label_width: int) -> ButtonLayout {
    let frame = Rect {
        x: (area.x + left_gap(area, label_width)) as u16,
        y: area.y,
        width: if label_width + 4 <= area.width {
            (label_width + 4) as u16
        } else {
            area.width
        },
        height: area.height,
    };
    ButtonLayout {
        frame,
        label: Rect {
            x: (frame.x + 1) as u16,
            y: (frame.y + 1) as u16,
            width: less(frame.width as int, 2) as u16,
            height: less(frame.height as int, 2) as u16,
        },
    }
}

/// `ratatui::text::Line::width` on the line that `Line::from` makes of
/// `label`: a line of one span, whose width is the Unicode display width of
/// the text. The width depends on nothing but the text.
#[verifier::external_body]
fn label_width(label: &str) -> (width: usize)
    ensures
        width == display_width(label@),
{
    ratatui::text::Line::from(label).width()
}

/// Lays out a button whose label is `label_width` columns wide in `area`.
pub fn button_layout(area: Rect, label_width: usize) -> (layout: ButtonLayout)
    requires
        fits(area, label_width as int),
    ensures
        layout == layout_of(area, label_width as int),
{
    let text_width: u16 = label_width as u16 + 4;
    let center_x: u16 = area.x + area.width.saturating_sub(text_width + 2) / 2;
    let frame = Rect {
        x: center_x,
        y: area.y,
        width: if text_width <= area.width {
            text_width
        } else {
            area.width
        },
        height: area.height,
    };
    let label = Rect {
        x: frame.x + 1,
        y: frame.y + 1,
        width: frame.width.saturating_sub(2),
        height: frame.height.saturating_sub(2),
    };
    ButtonLayout { frame, label }
}

impl Default for Theme {
    fn default() -> (theme: Self)
        ensures
            theme == default_theme(),
    {
        Theme {
            text: Color::Black,
            background: Color::Yellow,
            highlight: Color::Reset,
            shadow: Color::Reset,
        }
    }
}

impl Button {
    /// A button with the label `label`, in the default theme and the normal
    /// state.
    pub fn new(label: &str) -> (button: Button)
        ensures
            button.label@ == label@,
            button.theme == default_theme(),
            button.state == State::Normal,
    {
        Button { label: label.to_owned(), theme: Theme::default(), state: State::Normal }
    }

    /// The button in the state `state`.
    pub fn state(self, state: State) -> (button: Self)
        ensures
            button.label@ == self.label@,
            button.theme == self.theme,
            button.state == state,
    {
        let mut button = self;
        button.state = state;
        button
    }

    /// The button in the theme `theme`.
    pub fn theme(self, theme: Theme) -> (button: Self)
        ensures
            button.label@ == self.label@,
            button.theme == theme,
            button.state == self.state,
    {
        let mut button = self;
        button.theme = theme;
        button
    }

    /// The colours in which the button is painted: those of its theme in the
    /// normal state, and the terminal's own in any other.
    pub fn style(&self) -> (style: Style)
        ensures
            style == if self.state == State::Normal {
                (Style { fg: Some(self.theme.text), bg: Some(self.theme.background) })
            } else {
                (Style { fg: None, bg: None })
            },
    {
        match self.state {
            State::Normal => Style { fg: Some(self.theme.text), bg: Some(self.theme.background) },
            _ => Style { fg: None, bg: None },
        }
    }

    /// The layout of the button in `area`, or `None` where the button does
    /// not fit: where a coordinate of it would lie beyond the range of the
    /// screen.
    pub fn layout(&self, area: Rect) -> (layout: Option<ButtonLayout>)
        ensures
            layout == if fits(area, display_width(self.label@) as int) {
                Some(layout_of(area, display_width(self.label@) as int))
            } else {
                None
            },
    {
        let width = label_width(self.label.as_str());
        if width > 65529 {
            return None;
        }
        let text_width: u16 = width as u16 + 4;
        let gap: u16 = area.width.saturating_sub(text_width + 2) / 2;
        if area.x > 65534 - gap || area.y > 65534 {
            return None;
        }
        Some(button_layout(area, width))
    }
}

/// Whether the text `a` stands before `b`, or is `b`, in the order of a
/// dictionary: the first character in which they differ decides, and a text
/// stands before each text that it begins.
pub open spec fn text_le(a: Seq<char>, b: Seq<char>) -> bool
    decreases a.len(),
{
    if a.len() == 0 {
        true
    } else if b.len() == 0 {
        false
    } else if a[0] != b[0] {
        a[0] < b[0]
    } else {
        text_le(a.drop_first(), b.drop_first())
    }
}

/// `name` put into `sorted` behind every entry that does not stand behind it.
pub open spec fn insert_by_text(sorted: Seq<Seq<char>>, name: Seq<char>) -> Seq<Seq<char>>
    decreases sorted.len(),
{
    if sorted.len() == 0 || text_le(sorted.last(), name) {
        sorted.push(name)
    } else {
        insert_by_text(sorted.drop_last(), name).push(sorted.last())
    }
}

/// `names` in the order of a dictionary.
pub open spec fn sorted_by_text(names: Seq<Seq<char>>) -> Seq<Seq<char>>
    decreases names.len(),
{
    if names.len() == 0 {
        Seq::empty()
    } else {
        insert_by_text(sorted_by_text(names.drop_last()), names.last())
    }
}

/// Whether no entry of `names` stands behind the one that follows it.
pub open spec fn texts_ascend(names: Seq<Seq<char>>) -> bool {
    forall|i: int, j: int|
        0 <= i < j < names.len() ==> text_le(#[trigger] names[i], #[trigger] names[j])
}

/// The entry of the list for the module `name`: the name and an empty line.
pub open spec fn list_item(name: Seq<char>) -> Seq<char> {
    name + seq!['\n', '\n']
}

/// The list of modules as the screen shows it: the names in the order of a
/// dictionary, each with an empty line behind it.
pub open spec fn list_items(names: Seq<Seq<char>>) -> Seq<Seq<char>> {
    sorted_by_text(names).map_values(|name: Seq<char>| list_item(name))
}

/// The character of the decimal digit `d`.
pub open spec fn digit_char(d: int) -> char {
    if d == 0 {
        '0'
    } else if d == 1 {
        '1'
    } else if d == 2 {
        '2'
    } else if d == 3 {
        '3'
    } else if d == 4 {
        '4'
    } else if d == 5 {
        '5'
    } else if d == 6 {
        '6'
    } else if d == 7 {
        '7'
    } else if d == 8 {
        '8'
    } else {
        '9'
    }
}

/// The decimal digits of `n`, without zeros in front; one zero for zero.
pub open spec fn decimal_digits(n: nat) -> Seq<char>
    decreases n,
{
    if n < 10 {
        seq![digit_char(n as int)]
    } else {
        decimal_digits(n / 10).push(digit_char((n % 10) as int))
    }
}

/// The line on progress: the index of the current module and the number of
/// modules.
pub open spec fn progress_line(index: nat, count: nat) -> Seq<char> {
    "Current Progress: Module "@ + decimal_digits(index) + " of "@ + decimal_digits(count)
}

/// Of two texts, one stands before the other or they are the same.
pub proof fn lemma_text_le_total(a: Seq<char>, b: Seq<char>)
    ensures
        text_le(a, b) || text_le(b, a),
        text_le(a, b) && text_le(b, a) ==> a == b,
        text_le(a, a),
    decreases a.len(),
{
    if a.len() > 0 && b.len() > 0 && a[0] == b[0] {
        lemma_text_le_total(a.drop_first(), b.drop_first());
        if text_le(a, b) && text_le(b, a) {
            assert(a =~= seq![a[0]] + a.drop_first());
            assert(b =~= seq![b[0]] + b.drop_first());
        }
    }
    if a.len() > 0 {
        lemma_text_le_total(a.drop_first(), a.drop_first());
    }
    if a.len() == 0 && b.len() == 0 {
        assert(a =~= b);
    }
    if a.len() > 0 && b.len() > 0 && a[0] != b[0] {
        assert(text_le(b, a) == (b[0] < a[0]));
    }
}

/// What stands before a text stands before every text behind that one.
pub proof fn lemma_text_le_transitive(a: Seq<char>, b: Seq<char>, c: Seq<char>)
    requires
        text_le(a, b),
        text_le(b, c),
    ensures
        text_le(a, c),
    decreases a.len(),
{
    if a.len() > 0 && b.len() > 0 && c.len() > 0 && a[0] == b[0] && b[0] == c[0] {
        lemma_text_le_transitive(a.drop_first(), b.drop_first(), c.drop_first());
    }
}

/// Where every entry from `at` on stands behind `name`, and the entry before
/// `at` does not, `name` goes to the place `at`.
pub proof fn lemma_insert_by_text_at(sorted: Seq<Seq<char>>, name: Seq<char>, at: int)
    requires
        0 <= at <= sorted.len(),
        forall|j: int| at <= j < sorted.len() ==> !text_le(#[trigger] sorted[j], name),
        at > 0 ==> text_le(sorted[at - 1], name),
    ensures
        insert_by_text(sorted, name) == sorted.insert(at, name),
    decreases sorted.len() - at,
{
    if at == sorted.len() {
        assert(sorted.insert(at, name) =~= sorted.push(name));
    } else {
        let front = sorted.drop_last();
        assert(!text_le(sorted[sorted.len() - 1], name));
        assert forall|j: int| at <= j < front.len() implies !text_le(#[trigger] front[j], name) by {
            assert(front[j] == sorted[j]);
        }
        if at > 0 {
            assert(front[at - 1] == sorted[at - 1]);
        }
        lemma_insert_by_text_at(front, name, at);
        assert(front.insert(at, name).push(sorted.last()) =~= sorted.insert(at, name));
    }
}

/// Putting a name into entries that ascend gives entries that ascend.
pub proof fn lemma_insert_by_text_ascends(sorted: Seq<Seq<char>>, name: Seq<char>)
    requires
        texts_ascend(sorted),
    ensures
        texts_ascend(insert_by_text(sorted, name)),
        insert_by_text(sorted, name).len() == sorted.len() + 1,
    decreases sorted.len(),
{
    let out = insert_by_text(sorted, name);
    if sorted.len() == 0 || text_le(sorted.last(), name) {
        assert forall|i: int, j: int| 0 <= i < j < out.len() implies text_le(
            #[trigger] out[i],
            #[trigger] out[j],
        ) by {
            if j == sorted.len() {
                assert(out[i] == sorted[i]);
                if i < sorted.len() - 1 {
                    assert(text_le(sorted[i], sorted[sorted.len() - 1]));
                    lemma_text_le_transitive(sorted[i], sorted.last(), name);
                }
            } else {
                assert(out[i] == sorted[i] && out[j] == sorted[j]);
            }
        }
    } else {
        let front = sorted.drop_last();
        assert forall|i: int, j: int| 0 <= i < j < front.len() implies text_le(
            #[trigger] front[i],
            #[trigger] front[j],
        ) by {
            assert(front[i] == sorted[i] && front[j] == sorted[j]);
        }
        lemma_insert_by_text_ascends(front, name);
        lemma_insert_by_text_members(front, name);
        let inner = insert_by_text(front, name);
        lemma_text_le_total(sorted.last(), name);
        assert forall|i: int, j: int| 0 <= i < j < out.len() implies text_le(
            #[trigger] out[i],
            #[trigger] out[j],
        ) by {
            if j == inner.len() {
                assert(out[i] == inner[i]);
                if inner[i] == name {
                } else {
                    let k = choose|k: int| 0 <= k < front.len() && front[k] == inner[i];
                    assert(text_le(sorted[k], sorted[sorted.len() - 1]));
                }
            } else {
                assert(out[i] == inner[i] && out[j] == inner[j]);
            }
        }
    }
}

/// What stands in the entries after a name was put in is that name or stood
/// in them before.
pub proof fn lemma_insert_by_text_members(sorted: Seq<Seq<char>>, name: Seq<char>)
    ensures
        forall|i: int|
            0 <= i < insert_by_text(sorted, name).len() ==> (#[trigger] insert_by_text(
                sorted,
                name,
            )[i]) == name || exists|k: int|
                0 <= k < sorted.len() && sorted[k] == insert_by_text(sorted, name)[i],
    decreases sorted.len(),
{
    let out = insert_by_text(sorted, name);
    if sorted.len() == 0 || text_le(sorted.last(), name) {
        assert forall|i: int| 0 <= i < out.len() implies (#[trigger] out[i]) == name || exists|
            k: int,
        |
            0 <= k < sorted.len() && sorted[k] == out[i] by {
            if i < sorted.len() {
                assert(sorted[i] == out[i]);
            }
        }
    } else {
        let front = sorted.drop_last();
        lemma_insert_by_text_members(front, name);
        let inner = insert_by_text(front, name);
        assert forall|i: int| 0 <= i < out.len() implies (#[trigger] out[i]) == name || exists|
            k: int,
        |
            0 <= k < sorted.len() && sorted[k] == out[i] by {
            if i < inner.len() {
                assert(out[i] == inner[i]);
                if inner[i] != name {
                    let k = choose|k: int| 0 <= k < front.len() && front[k] == inner[i];
                    assert(sorted[k] == out[i]);
                }
            } else {
                assert(sorted[sorted.len() - 1] == out[i]);
            }
        }
    }
}

/// Putting a name into entries adds that name to them and nothing else.
pub proof fn lemma_insert_by_text_permutes(sorted: Seq<Seq<char>>, name: Seq<char>)
    ensures
        insert_by_text(sorted, name).to_multiset() == sorted.to_multiset().insert(name),
    decreases sorted.len(),
{
    broadcast use vstd::seq_lib::group_to_multiset_ensures;

    if sorted.len() == 0 || text_le(sorted.last(), name) {
    } else {
        let front = sorted.drop_last();
        lemma_insert_by_text_permutes(front, name);
        assert(front.push(sorted.last()) =~= sorted);
        assert(front.to_multiset().insert(name).insert(sorted.last()) =~= front.to_multiset().insert(
            sorted.last(),
        ).insert(name));
    }
}

/// The list that the screen shows holds the names of the modules, each as
/// often as it stands among them, and no other.
pub proof fn lemma_sorted_by_text_permutes(names: Seq<Seq<char>>)
    ensures
        sorted_by_text(names).to_multiset() == names.to_multiset(),
    decreases names.len(),
{
    broadcast use vstd::seq_lib::group_to_multiset_ensures;

    if names.len() == 0 {
        assert(sorted_by_text(names) =~= names);
    } else {
        let front = names.drop_last();
        lemma_sorted_by_text_permutes(front);
        lemma_insert_by_text_permutes(sorted_by_text(front), names.last());
        assert(front.push(names.last()) =~= names);
    }
}

/// The list that the screen shows ascends in the order of a dictionary, and
/// has one entry for each module.
pub proof fn lemma_sorted_by_text_ascends(names: Seq<Seq<char>>)
    ensures
        texts_ascend(sorted_by_text(names)),
        sorted_by_text(names).len() == names.len(),
    decreases names.len(),
{
    if names.len() > 0 {
        lemma_sorted_by_text_ascends(names.drop_last());
        lemma_insert_by_text_ascends(sorted_by_text(names.drop_last()), names.last());
    }
}

/// The decimal digits of a number are digits, and stand for that number.
pub proof fn lemma_decimal_digits_value(n: nat)
    ensures
        all_digits(decimal_digits(n)),
        decimal_value(decimal_digits(n)) == n,
        decimal_digits(n).len() >= 1,
    decreases n,
{
    let digits = decimal_digits(n);
    if n < 10 {
        assert(digits.drop_last() =~= Seq::<char>::empty());
        assert(decimal_value(digits.drop_last()) == 0);
        assert(is_digit(digits[0]));
    } else {
        let front = decimal_digits(n / 10);
        lemma_decimal_digits_value(n / 10);
        assert(digits.drop_last() =~= front);
        assert(is_digit(digits.last()));
        assert forall|i: int| 0 <= i < digits.len() implies is_digit(#[trigger] digits[i]) by {
            if i < front.len() {
                assert(digits[i] == front[i]);
            }
        }
    }
}

/// Tells whether `a` stands before `b`, or is `b`, in the order of a
/// dictionary.
fn stands_before(a: &Vec<char>, b: &Vec<char>) -> (before: bool)
    ensures
        before == text_le(a@, b@),
{
    let mut i: usize = 0;
    assert(a@.skip(0) =~= a@ && b@.skip(0) =~= b@);
    while i < a.len() && i < b.len() && a[i] == b[i]
        invariant
            i <= a.len(),
            i <= b.len(),
            text_le(a@, b@) == text_le(a@.skip(i as int), b@.skip(i as int)),
        decreases a.len() - i,
    {
        assert(a@.skip(i as int).drop_first() =~= a@.skip(i + 1));
        assert(b@.skip(i as int).drop_first() =~= b@.skip(i + 1));
        i += 1;
    }
    if i == a.len() {
        true
    } else if i == b.len() {
        false
    } else {
        a[i] < b[i]
    }
}

/// The names in the order of a dictionary.
pub fn sorted_names(names: &Vec<String>) -> (sorted: Vec<String>)
    ensures
        sorted.deep_view() == sorted_by_text(names.deep_view()),
{
    let ghost all = names.deep_view();
    let mut sorted: Vec<String> = Vec::new();
    let mut texts: Vec<Vec<char>> = Vec::new();
    assert(sorted.deep_view() =~= sorted_by_text(all.take(0)));
    for i in 0..names.len()
        invariant
            all == names.deep_view(),
            sorted.deep_view() == sorted_by_text(all.take(i as int)),
            texts.len() == sorted.len(),
            forall|j: int| 0 <= j < texts.len() ==> (#[trigger] texts[j])@ == sorted[j]@,
    {
        let text = chars_of(names[i].as_str());
        let mut at: usize = sorted.len();
        while at > 0 && !stands_before(&texts[at - 1], &text)
            invariant
                at <= sorted.len(),
                texts.len() == sorted.len(),
                forall|j: int| at <= j < texts.len() ==> !text_le((#[trigger] texts[j])@, text@),
            decreases at,
        {
            at -= 1;
        }
        let ghost before = sorted.deep_view();
        let ghost name = all[i as int];
        proof {
            assert forall|j: int| at <= j < before.len() implies !text_le(
                #[trigger] before[j],
                name,
            ) by {
                assert(before[j] == sorted[j]@);
                assert(texts[j]@ == sorted[j]@);
            }
            if at > 0 {
                assert(before[at - 1] == sorted[at - 1]@);
                assert(texts[at - 1]@ == sorted[at - 1]@);
            }
            lemma_insert_by_text_at(before, name, at as int);
            assert(all.take(i + 1).drop_last() =~= all.take(i as int));
            assert(all.take(i + 1).last() == name);
        }
        let ghost old_sorted = sorted@;
        let ghost old_texts = texts@;
        sorted.insert(at, names[i].clone());
        texts.insert(at, text);
        proof {
            assert(sorted.deep_view() =~= before.insert(at as int, name));
            assert forall|j: int| 0 <= j < texts.len() implies (#[trigger] texts[j])@
                == sorted[j]@ by {
                if j < at {
                    assert(sorted[j] == old_sorted[j] && texts[j] == old_texts[j]);
                } else if j > at {
                    assert(sorted[j] == old_sorted[j - 1] && texts[j] == old_texts[j - 1]);
                }
            }
        }
    }
    assert(all.take(names.len() as int) =~= all);
    sorted
}

/// The list of modules as the screen shows it: the names in the order of a
/// dictionary, each with an empty line behind it.
pub fn module_list(app: &App) -> (items: Vec<String>)
    ensures
        items.deep_view() == list_items(app.modules.deep_view()),
{
    let sorted = sorted_names(&app.modules);
    let mut items: Vec<String> = Vec::new();
    for i in 0..sorted.len()
        invariant
            items.len() == i,
            forall|j: int| 0 <= j < i ==> (#[trigger] items[j])@ == list_item(sorted[j]@),
    {
        let mut item = sorted[i].clone();
        proof {
            reveal_strlit("\n\n");
            assert("\n\n"@ =~= seq!['\n', '\n']);
        }
        item.append("\n\n");
        items.push(item);
    }
    assert(items.deep_view() =~= list_items(app.modules.deep_view())) by {
        assert forall|j: int| 0 <= j < items.len() implies items.deep_view()[j] == list_items(
            app.modules.deep_view(),
        )[j] by {
            assert(items.deep_view()[j] == items[j]@);
            assert(sorted.deep_view()[j] == sorted[j]@);
        }
    }
    items
}

/// The character of the decimal digit `d`.
fn digit_of(d: usize) -> (c: char)
    requires
        d < 10,
    ensures
        c == digit_char(d as int),
{
    if d == 0 {
        '0'
    } else if d == 1 {
        '1'
    } else if d == 2 {
        '2'
    } else if d == 3 {
        '3'
    } else if d == 4 {
        '4'
    } else if d == 5 {
        '5'
    } else if d == 6 {
        '6'
    } else if d == 7 {
        '7'
    } else if d == 8 {
        '8'
    } else {
        '9'
    }
}

/// Writes the decimal digits of `n` behind `text`.
fn push_decimal(text: &mut String, n: usize)
    ensures
        final(text)@ == old(text)@ + decimal_digits(n as nat),
    decreases n,
{
    if n >= 10 {
        push_decimal(text, n / 10);
    }
    text.push(digit_of(n % 10));
    proof {
        if n >= 10 {
            assert(old(text)@ + decimal_digits(n as nat) =~= (old(text)@ + decimal_digits(
                (n / 10) as nat,
            )).push(digit_char((n % 10) as int)));
        } else {
            assert(old(text)@ + decimal_digits(n as nat) =~= old(text)@.push(
                digit_char(n as int),
            ));
        }
    }
}

/// The line on progress: `Current Progress: Module`, the index of the
/// current module, `of`, and the number of modules.
pub fn progress_text(app: &App) -> (line: String)
    ensures
        line@ == progress_line(app.current_module_index as nat, app.modules.len() as nat),
{
    let mut line = "Current Progress: Module ".to_owned();
    push_decimal(&mut line, app.current_module_index);
    line.append(" of ");
    push_decimal(&mut line, app.modules.len());
    line
}

} // verus!
