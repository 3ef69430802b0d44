//! The boundary between the project model and the picker: the numbered
//! entries offered to the user, the rows made from them, and the payload
//! strings that carry a choice back as a target.

use vstd::prelude::*;
use crate::scanner::{is_declared_form, is_word_char};
use crate::selector::{SelectItem, SelectItemView};
use crate::text::{
    char_count, chars_of, decimal, pad_left, pad_right, push_decimal, push_spaces, string_of,
    views,
};
use crate::types::{address_of, Resource, ResourceView, Target, TargetView, TfocusError};

verus! {

/// One numbered entry offered to the user.
#[derive(Debug, PartialEq, Eq)]
pub enum SelectionItem {
    File(usize, String),
    Module(usize, String),
    Resource(usize, Resource),
}

/// A `SelectionItem` as a mathematical value.
pub enum SelectionItemView {
    File(nat, Seq<char>),
    Module(nat, Seq<char>),
    Resource(nat, ResourceView),
}

impl View for SelectionItem {
    type V = SelectionItemView;

    open spec fn view(&self) -> SelectionItemView {
        match self {
            SelectionItem::File(index, path) => SelectionItemView::File(*index as nat, path@),
            SelectionItem::Module(index, name) => SelectionItemView::Module(*index as nat, name@),
            SelectionItem::Resource(index, resource) => SelectionItemView::Resource(
                *index as nat,
                resource@,
            ),
        }
    }
}

/// The entries offered for a project, numbered from 1: its files, then its
/// modules, then every declaration.
pub open spec fn numbered(
    files: Seq<Seq<char>>,
    modules: Seq<Seq<char>>,
    resources: Seq<ResourceView>,
) -> Seq<SelectionItemView> {
    Seq::new(files.len(), |k: int| SelectionItemView::File((k + 1) as nat, files[k])) + Seq::new(
        modules.len(),
        |k: int| SelectionItemView::Module((files.len() + k + 1) as nat, modules[k]),
    ) + Seq::new(
        resources.len(),
        |k: int|
            SelectionItemView::Resource((files.len() + modules.len() + k + 1) as nat, resources[k]),
    )
}

/// Width of the column that holds an entry's number.
pub const INDEX_WIDTH: usize = 4;

/// Width of the column that holds an entry's kind.
pub const KIND_WIDTH: usize = 15;

/// A row's line: the number right-aligned, the kind left-aligned, then the
/// text, with one space between columns.
pub open spec fn display_line(index: nat, kind: Seq<char>, text: Seq<char>) -> Seq<char> {
    pad_left(decimal(index), INDEX_WIDTH as nat) + seq![' '] + pad_right(kind, KIND_WIDTH as nat)
        + seq![' '] + text
}

/// The kind shown for an entry.
pub open spec fn kind_label(item: SelectionItemView) -> Seq<char> {
    match item {
        SelectionItemView::File(_, _) => "[File]"@,
        SelectionItemView::Module(_, _) => "[Module]"@,
        SelectionItemView::Resource(_, r) => if r.is_module {
            "[Module]"@
        } else {
            "[Resource]"@
        },
    }
}

/// The text by which an entry is shown and searched.
pub open spec fn entry_text(item: SelectionItemView) -> Seq<char> {
    match item {
        SelectionItemView::File(_, path) => path,
        SelectionItemView::Module(_, name) => name,
        SelectionItemView::Resource(_, r) => address_of(r),
    }
}

/// An entry's number.
pub open spec fn entry_index(item: SelectionItemView) -> nat {
    match item {
        SelectionItemView::File(index, _) => index,
        SelectionItemView::Module(index, _) => index,
        SelectionItemView::Resource(index, _) => index,
    }
}

/// A payload: the letter of a kind, a colon, and the identity.
pub open spec fn tagged(kind: char, identity: Seq<char>) -> Seq<char> {
    seq![kind, ':'] + identity
}

/// The payload that encodes an entry: `f:<path>` for a file, `m:<name>` for a
/// module or a module call, `r:<type>.<name>` for a leaf resource.
pub open spec fn payload_of(item: SelectionItemView) -> Seq<char> {
    match item {
        SelectionItemView::File(_, path) => tagged('f', path),
        SelectionItemView::Module(_, name) => tagged('m', name),
        SelectionItemView::Resource(_, r) => if r.is_module {
            tagged('m', r.name)
        } else {
            tagged('r', r.resource_type + seq!['.'] + r.name)
        },
    }
}

/// The target that an entry stands for.
pub open spec fn target_of(item: SelectionItemView) -> TargetView {
    match item {
        SelectionItemView::File(_, path) => TargetView::File(path),
        SelectionItemView::Module(_, name) => TargetView::Module(name),
        SelectionItemView::Resource(_, r) => if r.is_module {
            TargetView::Module(r.name)
        } else {
            TargetView::Resource(r.resource_type, r.name)
        },
    }
}

/// Whether `payload` starts with the letter `kind` and a colon.
pub open spec fn has_tag(payload: Seq<char>, kind: char) -> bool {
    payload.len() >= 2 && payload[0] == kind && payload[1] == ':'
}

/// Whether position `p` holds the only dot of `s`.
pub open spec fn is_sole_dot(s: Seq<char>, p: int) -> bool {
    &&& 0 <= p < s.len()
    &&& s[p] == '.'
    &&& forall|k: int| 0 <= k < s.len() && k != p ==> s[k] != '.'
}

/// Whether `s` is a type and a name joined by its only dot, both nonempty.
pub open spec fn splits_in_two(s: Seq<char>) -> bool {
    exists|p: int| is_sole_dot(s, p) && 0 < p < s.len() - 1
}

/// The position of the dot that joins type and name.
pub open spec fn joint(s: Seq<char>) -> int {
    choose|p: int| is_sole_dot(s, p) && 0 < p < s.len() - 1
}

/// The target that a payload encodes, if it is in one of the three encodings.
pub open spec fn decode_payload(payload: Seq<char>) -> Option<TargetView> {
    if has_tag(payload, 'f') {
        Some(TargetView::File(payload.skip(2)))
    } else if has_tag(payload, 'm') {
        Some(TargetView::Module(payload.skip(2)))
    } else if has_tag(payload, 'r') && splits_in_two(payload.skip(2)) {
        let rest = payload.skip(2);
        Some(TargetView::Resource(rest.take(joint(rest)), rest.skip(joint(rest) + 1)))
    } else {
        None
    }
}

/// Whether a text can serve as the type or the name inside a resource payload:
/// it is nonempty and holds no dot.
pub open spec fn is_plain_label(s: Seq<char>) -> bool {
    s.len() > 0 && forall|k: int| 0 <= k < s.len() ==> s[k] != '.'
}

/// Whether an entry's payload can be told apart again: always for files and
/// modules; for a leaf resource, when type and name are plain labels.
pub open spec fn is_encodable(item: SelectionItemView) -> bool {
    match item {
        SelectionItemView::Resource(_, r) => r.is_module || (is_plain_label(r.resource_type)
            && is_plain_label(r.name)),
        _ => true,
    }
}

/// Encoding an entry to its payload and decoding the payload gives back the
/// file path, the module name, or the type and name that the entry stands for.
pub proof fn lemma_payload_round_trip(item: SelectionItemView)
    requires
        is_encodable(item),
    ensures
        decode_payload(payload_of(item)) == Some(target_of(item)),
{
    match item {
        SelectionItemView::File(_, path) => {
            assert(tagged('f', path).skip(2) =~= path);
        },
        SelectionItemView::Module(_, name) => {
            assert(tagged('m', name).skip(2) =~= name);
        },
        SelectionItemView::Resource(_, r) => {
            if r.is_module {
                assert(tagged('m', r.name).skip(2) =~= r.name);
            } else {
                let joined = r.resource_type + seq!['.'] + r.name;
                let p = r.resource_type.len() as int;
                assert(tagged('r', joined).skip(2) =~= joined);
                assert(is_sole_dot(joined, p));
                lemma_sole_dot_unique(joined, p, joint(joined));
                assert(joined.take(p) =~= r.resource_type);
                assert(joined.skip(p + 1) =~= r.name);
            }
        },
    }
}

/// An entry for a declaration that the scanner found can always be told
/// apart again: identifiers hold no dot.
pub proof fn lemma_declared_is_encodable(index: nat, r: ResourceView)
    requires
        is_declared_form(r),
    ensures
        is_encodable(SelectionItemView::Resource(index, r)),
        decode_payload(payload_of(SelectionItemView::Resource(index, r))) == Some(
            target_of(SelectionItemView::Resource(index, r)),
        ),
{
    if !r.is_module {
        assert forall|k: int| 0 <= k < r.resource_type.len() implies r.resource_type[k] != '.' by {
            assert(is_word_char(r.resource_type[k]));
        }
        assert forall|k: int| 0 <= k < r.name.len() implies r.name[k] != '.' by {
            assert(is_word_char(r.name[k]));
        }
    }
    lemma_payload_round_trip(SelectionItemView::Resource(index, r));
}

/// A text has at most one sole dot.
pub proof fn lemma_sole_dot_unique(s: Seq<char>, p: int, q: int)
    requires
        is_sole_dot(s, p),
        is_sole_dot(s, q),
    ensures
        p == q,
{
}

/// The row made from an entry.
pub open spec fn select_item_for(item: SelectionItemView) -> SelectItemView {
    SelectItemView {
        display: display_line(entry_index(item), kind_label(item), entry_text(item)),
        search_text: entry_text(item),
        data: payload_of(item),
    }
}

fn format_line(index: usize, kind: &str, text: &str) -> (out: String)
    ensures
        out@ == display_line(index as nat, kind@, text@),
{
    proof {
        reveal_strlit(" ");
    }
    let mut number = String::new();
    push_decimal(&mut number, index);
    assert(number@ =~= decimal(index as nat));
    let digits = char_count(number.as_str());
    let mut out = String::new();
    if digits < INDEX_WIDTH {
        push_spaces(&mut out, INDEX_WIDTH - digits);
    }
    out.append(number.as_str());
    assert(out@ =~= pad_left(decimal(index as nat), INDEX_WIDTH as nat));
    out.append(" ");
    out.append(kind);
    let letters = char_count(kind);
    if letters < KIND_WIDTH {
        push_spaces(&mut out, KIND_WIDTH - letters);
    }
    out.append(" ");
    out.append(text);
    assert(out@ =~= display_line(index as nat, kind@, text@));
    out
}

fn select_item(item: &SelectionItem) -> (out: SelectItem)
    ensures
        out@ == select_item_for(item@),
{
    proof {
        reveal_strlit("f:");
        reveal_strlit("m:");
        reveal_strlit("r:");
        reveal_strlit(".");
    }
    match item {
        SelectionItem::File(index, path) => {
            let mut data = String::new();
            data.append("f:");
            data.append(path.as_str());
            assert(data@ =~= payload_of(item@));
            SelectItem {
                display: format_line(*index, "[File]", path.as_str()),
                search_text: path.clone(),
                data,
            }
        },
        SelectionItem::Module(index, name) => {
            let mut data = String::new();
            data.append("m:");
            data.append(name.as_str());
            assert(data@ =~= payload_of(item@));
            SelectItem {
                display: format_line(*index, "[Module]", name.as_str()),
                search_text: name.clone(),
                data,
            }
        },
        SelectionItem::Resource(index, resource) => {
            let text = resource.address();
            let mut data = String::new();
            if resource.is_module {
                data.append("m:");
                data.append(resource.name.as_str());
                assert(data@ =~= payload_of(item@));
                SelectItem {
                    display: format_line(*index, "[Module]", text.as_str()),
                    search_text: text,
                    data,
                }
            } else {
                data.append("r:");
                data.append(resource.resource_type.as_str());
                data.append(".");
                data.append(resource.name.as_str());
                assert(data@ =~= payload_of(item@));
                SelectItem {
                    display: format_line(*index, "[Resource]", text.as_str()),
                    search_text: text,
                    data,
                }
            }
        },
    }
}

/// Makes the picker's rows from the numbered entries, one row per entry and
/// in the same order.
pub fn create_selection_items(selection_items: &[SelectionItem]) -> (out: Vec<SelectItem>)
    ensures
        views(out@) == views(selection_items@).map_values(
            |item: SelectionItemView| select_item_for(item),
        ),
{
    let mut out: Vec<SelectItem> = Vec::new();
    let mut i: usize = 0;
    while i < selection_items.len()
        invariant
            i <= selection_items.len(),
            out.len() == i,
            forall|k: int|
                0 <= k < i ==> (#[trigger] out@[k])@ == select_item_for(selection_items@[k]@),
        decreases selection_items.len() - i,
    {
        out.push(select_item(&selection_items[i]));
        i = i + 1;
    }
    assert(views(out@) =~= views(selection_items@).map_values(
        |item: SelectionItemView| select_item_for(item),
    ));
    out
}

/// Numbers the entries to offer, from 1: the files, then the modules, then
/// the resources, each group in its own order. The count of entries has to
/// fit the machine's integers.
pub fn number_entries(files: &[String], modules: &[String], resources: &[Resource]) -> (out: Vec<
    SelectionItem,
>)
    requires
        files@.len() + modules@.len() + resources@.len() <= usize::MAX,
    ensures
        views(out@) == numbered(views(files@), views(modules@), views(resources@)),
{
    let ghost wanted = numbered(views(files@), views(modules@), views(resources@));
    let mut out: Vec<SelectionItem> = Vec::new();
    let mut i: usize = 0;
    while i < files.len()
        invariant
            i <= files.len(),
            files@.len() + modules@.len() + resources@.len() <= usize::MAX,
            wanted == numbered(views(files@), views(modules@), views(resources@)),
            views(out@) == wanted.take(i as int),
        decreases files.len() - i,
    {
        let ghost before = views(out@);
        let item = SelectionItem::File(i + 1, files[i].clone());
        assert(item@ == wanted[i as int]);
        out.push(item);
        assert(views(out@) =~= before.push(item@));
        i = i + 1;
        assert(before.push(item@) =~= wanted.take(i as int));
    }
    let mut j: usize = 0;
    while j < modules.len()
        invariant
            j <= modules.len(),
            i == files.len(),
            files@.len() + modules@.len() + resources@.len() <= usize::MAX,
            wanted == numbered(views(files@), views(modules@), views(resources@)),
            views(out@) == wanted.take(i + j),
        decreases modules.len() - j,
    {
        let ghost before = views(out@);
        let item = SelectionItem::Module(i + j + 1, modules[j].clone());
        assert(item@ == wanted[i + j]);
        out.push(item);
        assert(views(out@) =~= before.push(item@));
        j = j + 1;
        assert(before.push(item@) =~= wanted.take(i + j));
    }
    let mut k: usize = 0;
    while k < resources.len()
        invariant
            k <= resources.len(),
            i == files.len(),
            j == modules.len(),
            files@.len() + modules@.len() + resources@.len() <= usize::MAX,
            wanted == numbered(views(files@), views(modules@), views(resources@)),
            views(out@) == wanted.take(i + j + k),
        decreases resources.len() - k,
    {
        let ghost before = views(out@);
        let item = SelectionItem::Resource(i + j + k + 1, resources[k].clone());
        assert(item@ == wanted[i + j + k]);
        out.push(item);
        assert(views(out@) =~= before.push(item@));
        k = k + 1;
        assert(before.push(item@) =~= wanted.take(i + j + k));
    }
    assert(wanted.take(i + j + k) =~= wanted);
    out
}

/// The position of the first dot of `chars` at or after `from`, or the length
/// of `chars` if there is none.
fn find_dot(chars: &Vec<char>, from: usize) -> (p: usize)
    requires
        from <= chars.len(),
    ensures
        from <= p <= chars.len(),
        p < chars.len() ==> chars[p as int] == '.',
        forall|k: int| from <= k < p ==> chars[k] != '.',
{
    let mut p: usize = from;
    while p < chars.len() && chars[p] != '.'
        invariant
            from <= p <= chars.len(),
            forall|k: int| from <= k < p ==> chars[k] != '.',
        decreases chars.len() - p,
    {
        p = p + 1;
    }
    p
}

/// Decodes the payload that the picker returned into the target it names.
/// Fails with `InvalidTargetSelection` exactly when the payload is in none of
/// the three encodings.
pub fn parse_selection(selected: &str) -> (out: Result<Target, TfocusError>)
    ensures
        match out {
            Ok(target) => decode_payload(selected@) == Some(target@),
            Err(e) => e == TfocusError::InvalidTargetSelection && decode_payload(selected@)
                is None,
        },
{
    let chars = chars_of(selected);
    let n = chars.len();
    if n < 2 || chars[1] != ':' {
        return Err(TfocusError::InvalidTargetSelection);
    }
    let kind = chars[0];
    if kind == 'f' {
        let path = string_of(&chars, 2, n);
        assert(path@ =~= selected@.skip(2));
        Ok(Target::File(path))
    } else if kind == 'm' {
        let name = string_of(&chars, 2, n);
        assert(name@ =~= selected@.skip(2));
        Ok(Target::Module(name))
    } else if kind == 'r' {
        let ghost rest = selected@.skip(2);
        let dot = find_dot(&chars, 2);
        if dot == n || dot == 2 || dot == n - 1 {
            proof {
                if splits_in_two(rest) {
                    let q = joint(rest);
                    assert(rest[q] == chars@[q + 2]);
                    if dot < n {
                        assert(rest[dot - 2] == '.');
                    }
                }
            }
            return Err(TfocusError::InvalidTargetSelection);
        }
        let other = find_dot(&chars, dot + 1);
        if other < n {
            proof {
                if splits_in_two(rest) {
                    let q = joint(rest);
                    assert(rest[dot - 2] == '.');
                    assert(rest[other - 2] == '.');
                }
            }
            return Err(TfocusError::InvalidTargetSelection);
        }
        proof {
            assert forall|k: int| 0 <= k < rest.len() && k != dot - 2 implies rest[k] != '.' by {
                assert(rest[k] == chars@[k + 2]);
            }
            assert(is_sole_dot(rest, dot - 2));
            lemma_sole_dot_unique(rest, dot - 2, joint(rest));
        }
        let resource_type = string_of(&chars, 2, dot);
        let name = string_of(&chars, dot + 1, n);
        assert(resource_type@ =~= rest.take(dot - 2));
        assert(name@ =~= rest.skip(dot - 2 + 1));
        Ok(Target::Resource(resource_type, name))
    } else {
        Err(TfocusError::InvalidTargetSelection)
    }
}

} // verus!
