//! From a TOML value to a document: which shapes are a document, and what
//! document each of them is.

use crate::dict::Dict;
use crate::error::{ParseError, ParseErrorView, Part};
use crate::tree::{
    Cluster, ClusterView, Doc, DocView, EmojiMap, Graphviz, GraphvizView, Group, GroupView, Item,
    SkillTree, SkillTreeView, Status, Width, WidthView,
};
use crate::nesting::{nests_too_deep, too_deep};
use crate::value::{field, lookup, read_document, toml_document, TomlValue};
use vstd::prelude::*;

verus! {

/// The text of a string value.
pub open spec fn as_text(v: TomlValue) -> Option<Seq<char>> {
    match v {
        TomlValue::String(s) => Some(s@),
        _ => None,
    }
}

/// The texts of an array of strings.
pub open spec fn as_texts(v: TomlValue) -> Option<Seq<Seq<char>>> {
    match v {
        TomlValue::Array(a) => if forall|i: int|
            0 <= i < a@.len() ==> as_text(#[trigger] a@[i]) is Some {
            Some(Seq::new(a@.len(), |i: int| as_text(a@[i]).unwrap()))
        } else {
            None
        },
        _ => None,
    }
}

/// The entries of a table of strings, as a map.
pub open spec fn text_entries(t: Seq<(String, TomlValue)>) -> Map<Seq<char>, Seq<char>>
    decreases t.len(),
{
    if t.len() == 0 {
        Map::empty()
    } else {
        text_entries(t.drop_last()).insert(t.last().0@, as_text(t.last().1).unwrap())
    }
}

/// The map that a table of strings stands for.
pub open spec fn as_text_map(v: TomlValue) -> Option<Map<Seq<char>, Seq<char>>> {
    match v {
        TomlValue::Table(t) => if forall|i: int|
            0 <= i < t@.len() ==> as_text((#[trigger] t@[i]).1) is Some {
            Some(text_entries(t@))
        } else {
            None
        },
        _ => None,
    }
}

/// The entries of a table of tables of strings, as a map of maps.
pub open spec fn table_entries(t: Seq<(String, TomlValue)>) -> Map<
    Seq<char>,
    Map<Seq<char>, Seq<char>>,
>
    decreases t.len(),
{
    if t.len() == 0 {
        Map::empty()
    } else {
        table_entries(t.drop_last()).insert(t.last().0@, as_text_map(t.last().1).unwrap())
    }
}

/// The map of maps that a table of tables of strings stands for.
pub open spec fn as_table_map(v: TomlValue) -> Option<Map<Seq<char>, Map<Seq<char>, Seq<char>>>> {
    match v {
        TomlValue::Table(t) => if forall|i: int|
            0 <= i < t@.len() ==> as_text_map((#[trigger] t@[i]).1) is Some {
            Some(table_entries(t@))
        } else {
            None
        },
        _ => None,
    }
}

/// The items that an array of tables of strings stands for.
pub open spec fn as_items(v: TomlValue) -> Option<Seq<Map<Seq<char>, Seq<char>>>> {
    match v {
        TomlValue::Array(a) => if forall|i: int|
            0 <= i < a@.len() ==> as_text_map(#[trigger] a@[i]) is Some {
            Some(Seq::new(a@.len(), |i: int| as_text_map(a@[i]).unwrap()))
        } else {
            None
        },
        _ => None,
    }
}

/// The width that a number stands for.
pub open spec fn as_width(v: TomlValue) -> Option<WidthView> {
    match v {
        TomlValue::Integer(i) => Some(WidthView::Whole(i)),
        TomlValue::Float(text) => Some(WidthView::Real { text: text@ }),
        _ => None,
    }
}

/// The status that bears `name`.
pub open spec fn status_named(name: Seq<char>) -> Option<Status> {
    if name == "Blocked"@ {
        Some(Status::Blocked)
    } else if name == "Unassigned"@ {
        Some(Status::Unassigned)
    } else if name == "Assigned"@ {
        Some(Status::Assigned)
    } else if name == "Complete"@ {
        Some(Status::Complete)
    } else {
        None
    }
}

/// The status that a string value names.
pub open spec fn as_status(v: TomlValue) -> Option<Status> {
    match v {
        TomlValue::String(s) => status_named(s@),
        _ => None,
    }
}

/// What an optional entry holds: `Some(None)` where it is absent,
/// `Some(Some(..))` where it is there and reads, `None` where it is there
/// and does not read.
pub open spec fn optional<T>(found: Option<TomlValue>, read: Option<T>) -> Option<Option<T>> {
    if found is None {
        Some(None)
    } else if read is Some {
        Some(read)
    } else {
        None
    }
}

/// The string under `key`, where the entry is there and is a string.
pub open spec fn text_at(t: Seq<(String, TomlValue)>, key: Seq<char>) -> Option<Seq<char>> {
    match field(t, key) {
        Some(v) => as_text(v),
        None => None,
    }
}

/// The strings under `key`, where the entry is there and is an array of strings.
pub open spec fn texts_at(t: Seq<(String, TomlValue)>, key: Seq<char>) -> Option<Seq<Seq<char>>> {
    match field(t, key) {
        Some(v) => as_texts(v),
        None => None,
    }
}

/// The map under `key`, where the entry is there and is a table of strings.
pub open spec fn text_map_at(t: Seq<(String, TomlValue)>, key: Seq<char>) -> Option<
    Map<Seq<char>, Seq<char>>,
> {
    match field(t, key) {
        Some(v) => as_text_map(v),
        None => None,
    }
}

/// The map of maps under `key`, where the entry is there and is a table of
/// tables of strings.
pub open spec fn table_map_at(t: Seq<(String, TomlValue)>, key: Seq<char>) -> Option<
    Map<Seq<char>, Map<Seq<char>, Seq<char>>>,
> {
    match field(t, key) {
        Some(v) => as_table_map(v),
        None => None,
    }
}

/// The items under `key`, where the entry is there and is an array of
/// tables of strings.
pub open spec fn items_at(t: Seq<(String, TomlValue)>, key: Seq<char>) -> Option<
    Seq<Map<Seq<char>, Seq<char>>>,
> {
    match field(t, key) {
        Some(v) => as_items(v),
        None => None,
    }
}

/// The width under `key`, where the entry is there and is a number.
pub open spec fn width_at(t: Seq<(String, TomlValue)>, key: Seq<char>) -> Option<WidthView> {
    match field(t, key) {
        Some(v) => as_width(v),
        None => None,
    }
}

/// The status under `key`, where the entry is there and names one.
pub open spec fn status_at(t: Seq<(String, TomlValue)>, key: Seq<char>) -> Option<Status> {
    match field(t, key) {
        Some(v) => as_status(v),
        None => None,
    }
}

/// The group that a table stands for: `name` and `items` must be there,
/// every entry that is there must have its type, other entries are passed over.
pub open spec fn group_of(v: TomlValue) -> Option<GroupView> {
    match v {
        TomlValue::Table(t) => {
            let t = t@;
            let name = text_at(t, "name"@);
            let cluster = optional(field(t, "cluster"@), text_at(t, "cluster"@));
            let label = optional(field(t, "label"@), text_at(t, "label"@));
            let dependencies = optional(field(t, "requires"@), texts_at(t, "requires"@));
            let description = optional(field(t, "description"@), texts_at(t, "description"@));
            let items = items_at(t, "items"@);
            let width = optional(field(t, "width"@), width_at(t, "width"@));
            let status = optional(field(t, "status"@), status_at(t, "status"@));
            let href = optional(field(t, "href"@), text_at(t, "href"@));
            let header_color = optional(field(t, "header_color"@), text_at(t, "header_color"@));
            let description_color = optional(
                field(t, "description_color"@),
                text_at(t, "description_color"@),
            );
            if name is Some && cluster is Some && label is Some && dependencies is Some
                && description is Some && items is Some && width is Some && status is Some
                && href is Some && header_color is Some && description_color is Some {
                Some(
                    GroupView {
                        name: name.unwrap(),
                        cluster: cluster.unwrap(),
                        label: label.unwrap(),
                        dependencies: dependencies.unwrap(),
                        description: description.unwrap(),
                        items: items.unwrap(),
                        width: width.unwrap(),
                        status: status.unwrap(),
                        href: href.unwrap(),
                        header_color: header_color.unwrap(),
                        description_color: description_color.unwrap(),
                    },
                )
            } else {
                None
            }
        },
        _ => None,
    }
}

/// The cluster that a table stands for: `name` and `label` must be there.
pub open spec fn cluster_of(v: TomlValue) -> Option<ClusterView> {
    match v {
        TomlValue::Table(t) => {
            let t = t@;
            let name = text_at(t, "name"@);
            let label = text_at(t, "label"@);
            let color = optional(field(t, "color"@), text_at(t, "color"@));
            let style = optional(field(t, "style"@), text_at(t, "style"@));
            if name is Some && label is Some && color is Some && style is Some {
                Some(
                    ClusterView {
                        name: name.unwrap(),
                        label: label.unwrap(),
                        color: color.unwrap(),
                        style: style.unwrap(),
                    },
                )
            } else {
                None
            }
        },
        _ => None,
    }
}

/// The layout hints that a table stands for.
pub open spec fn graphviz_of(v: TomlValue) -> Option<GraphvizView> {
    match v {
        TomlValue::Table(t) => {
            let rankdir = optional(field(t@, "rankdir"@), text_at(t@, "rankdir"@));
            if rankdir is Some {
                Some(GraphvizView { rankdir: rankdir.unwrap() })
            } else {
                None
            }
        },
        _ => None,
    }
}

/// The document metadata that a table stands for.
pub open spec fn doc_of(v: TomlValue) -> Option<DocView> {
    match v {
        TomlValue::Table(t) => {
            let t = t@;
            let columns = optional(field(t, "columns"@), texts_at(t, "columns"@));
            let defaults = optional(field(t, "defaults"@), text_map_at(t, "defaults"@));
            let emoji = optional(field(t, "emoji"@), table_map_at(t, "emoji"@));
            let includes = optional(field(t, "include"@), texts_at(t, "include"@));
            if columns is Some && defaults is Some && emoji is Some && includes is Some {
                Some(
                    DocView {
                        columns: columns.unwrap(),
                        defaults: defaults.unwrap(),
                        emoji: emoji.unwrap(),
                        includes: includes.unwrap(),
                    },
                )
            } else {
                None
            }
        },
        _ => None,
    }
}

/// Whether `i` is the first position of `a` that holds no group.
pub open spec fn first_bad_group(a: Seq<TomlValue>, i: int) -> bool {
    &&& 0 <= i < a.len()
    &&& group_of(a[i]) is None
    &&& forall|j: int| 0 <= j < i ==> group_of(#[trigger] a[j]) is Some
}

/// Whether `i` is the first position of `a` that holds no cluster.
pub open spec fn first_bad_cluster(a: Seq<TomlValue>, i: int) -> bool {
    &&& 0 <= i < a.len()
    &&& cluster_of(a[i]) is None
    &&& forall|j: int| 0 <= j < i ==> cluster_of(#[trigger] a[j]) is Some
}

/// The groups under `group`: none where the entry is absent, else every
/// entry of the array in order, or the part that is at fault.
pub open spec fn groups_in(t: Seq<(String, TomlValue)>) -> Result<Option<Seq<GroupView>>, Part> {
    match field(t, "group"@) {
        None => Ok(None),
        Some(TomlValue::Array(a)) => if exists|i: int| first_bad_group(a@, i) {
            Err(Part::Group((choose|i: int| first_bad_group(a@, i)) as usize))
        } else {
            Ok(Some(Seq::new(a@.len(), |i: int| group_of(a@[i]).unwrap())))
        },
        Some(_) => Err(Part::Groups),
    }
}

/// The clusters under `cluster`, as `groups_in` gives the groups.
pub open spec fn clusters_in(t: Seq<(String, TomlValue)>) -> Result<
    Option<Seq<ClusterView>>,
    Part,
> {
    match field(t, "cluster"@) {
        None => Ok(None),
        Some(TomlValue::Array(a)) => if exists|i: int| first_bad_cluster(a@, i) {
            Err(Part::Cluster((choose|i: int| first_bad_cluster(a@, i)) as usize))
        } else {
            Ok(Some(Seq::new(a@.len(), |i: int| cluster_of(a@[i]).unwrap())))
        },
        Some(_) => Err(Part::Clusters),
    }
}

/// The layout hints under `graphviz`.
pub open spec fn graphviz_in(t: Seq<(String, TomlValue)>) -> Option<Option<GraphvizView>> {
    optional(
        field(t, "graphviz"@),
        match field(t, "graphviz"@) {
            Some(v) => graphviz_of(v),
            None => None,
        },
    )
}

/// The metadata under `doc`.
pub open spec fn doc_in(t: Seq<(String, TomlValue)>) -> Option<Option<DocView>> {
    optional(
        field(t, "doc"@),
        match field(t, "doc"@) {
            Some(v) => doc_of(v),
            None => None,
        },
    )
}

/// The document that a TOML value stands for, or the first part of it that
/// has the wrong shape: the document itself, then its groups, its
/// clusters, its layout hints and its metadata.
pub open spec fn tree_of(v: TomlValue) -> Result<SkillTreeView, Part> {
    match v {
        TomlValue::Table(t) => match groups_in(t@) {
            Err(part) => Err(part),
            Ok(group) => match clusters_in(t@) {
                Err(part) => Err(part),
                Ok(cluster) => match graphviz_in(t@) {
                    None => Err(Part::Graphviz),
                    Some(graphviz) => match doc_in(t@) {
                        None => Err(Part::Doc),
                        Some(doc) => Ok(SkillTreeView { group, cluster, graphviz, doc }),
                    },
                },
            },
        },
        _ => Err(Part::Document),
    }
}

fn read_text(v: &TomlValue) -> (r: Option<String>)
    ensures
        r.deep_view() == as_text(*v),
{
    match v {
        TomlValue::String(s) => Some(s.clone()),
        _ => None,
    }
}

#[verifier::loop_isolation(false)]
fn read_texts(v: &TomlValue) -> (r: Option<Vec<String>>)
    ensures
        r.deep_view() == as_texts(*v),
{
    match v {
        TomlValue::Array(a) => {
            let mut out: Vec<String> = Vec::new();
            let mut i: usize = 0;
            while i < a.len()
                invariant
                    i <= a@.len(),
                    forall|j: int| 0 <= j < i ==> as_text(#[trigger] a@[j]) is Some,
                    out.deep_view() == Seq::new(i as nat, |j: int| as_text(a@[j]).unwrap()),
                decreases a@.len() - i,
            {
                let ghost before = out.deep_view();
                match read_text(&a[i]) {
                    Some(s) => {
                        out.push(s);
                    },
                    None => {
                        return None;
                    },
                }
                assert(out.deep_view() =~= before.push(as_text(a@[i as int]).unwrap()));
                i += 1;
            }
            Some(out)
        },
        _ => None,
    }
}

#[verifier::loop_isolation(false)]
fn read_text_map(v: &TomlValue) -> (r: Option<Dict<String>>)
    ensures
        r.deep_view() == as_text_map(*v),
{
    match v {
        TomlValue::Table(t) => {
            let mut out: Dict<String> = Dict::new();
            let mut i: usize = 0;
            assert(t@.take(0) == Seq::<(String, TomlValue)>::empty());
            while i < t.len()
                invariant
                    i <= t@.len(),
                    forall|j: int| 0 <= j < i ==> as_text((#[trigger] t@[j]).1) is Some,
                    out@ == text_entries(t@.take(i as int)),
                decreases t@.len() - i,
            {
                let ghost upto = t@.take(i + 1);
                assert(upto.drop_last() == t@.take(i as int));
                assert(upto.last() == t@[i as int]);
                match read_text(&t[i].1) {
                    Some(s) => {
                        out.insert(t[i].0.clone(), s);
                    },
                    None => {
                        return None;
                    },
                }
                i += 1;
            }
            assert(t@.take(i as int) == t@);
            Some(out)
        },
        _ => None,
    }
}

#[verifier::loop_isolation(false)]
fn read_table_map(v: &TomlValue) -> (r: Option<Dict<EmojiMap>>)
    ensures
        r.deep_view() == as_table_map(*v),
{
    match v {
        TomlValue::Table(t) => {
            let mut out: Dict<EmojiMap> = Dict::new();
            let mut i: usize = 0;
            assert(t@.take(0) == Seq::<(String, TomlValue)>::empty());
            while i < t.len()
                invariant
                    i <= t@.len(),
                    forall|j: int| 0 <= j < i ==> as_text_map((#[trigger] t@[j]).1) is Some,
                    out@ == table_entries(t@.take(i as int)),
                decreases t@.len() - i,
            {
                let ghost upto = t@.take(i + 1);
                assert(upto.drop_last() == t@.take(i as int));
                assert(upto.last() == t@[i as int]);
                match read_text_map(&t[i].1) {
                    Some(m) => {
                        out.insert(t[i].0.clone(), m);
                    },
                    None => {
                        return None;
                    },
                }
                i += 1;
            }
            assert(t@.take(i as int) == t@);
            Some(out)
        },
        _ => None,
    }
}

#[verifier::loop_isolation(false)]
fn read_items(v: &TomlValue) -> (r: Option<Vec<Item>>)
    ensures
        r.deep_view() == as_items(*v),
{
    match v {
        TomlValue::Array(a) => {
            let mut out: Vec<Item> = Vec::new();
            let mut i: usize = 0;
            while i < a.len()
                invariant
                    i <= a@.len(),
                    forall|j: int| 0 <= j < i ==> as_text_map(#[trigger] a@[j]) is Some,
                    out.deep_view() == Seq::new(i as nat, |j: int| as_text_map(a@[j]).unwrap()),
                decreases a@.len() - i,
            {
                let ghost before = out.deep_view();
                match read_text_map(&a[i]) {
                    Some(item) => {
                        out.push(item);
                    },
                    None => {
                        return None;
                    },
                }
                assert(out.deep_view() =~= before.push(as_text_map(a@[i as int]).unwrap()));
                i += 1;
            }
            Some(out)
        },
        _ => None,
    }
}

fn read_width(v: &TomlValue) -> (r: Option<Width>)
    ensures
        r.deep_view() == as_width(*v),
{
    match v {
        TomlValue::Integer(i) => Some(Width::Whole(*i)),
        TomlValue::Float(text) => Some(Width::Real { text: text.clone() }),
        _ => None,
    }
}

impl Status {
    /// The name of the status, as documents write it. Reading the name
    /// back gives the status again.
    pub fn name(&self) -> (r: &'static str)
        ensures
            status_named(r@) == Some(*self),
    {
        proof {
            reveal_strlit("Blocked");
            reveal_strlit("Unassigned");
            reveal_strlit("Assigned");
            reveal_strlit("Complete");
            assert("Blocked"@.len() == 7);
            assert("Unassigned"@.len() == 10);
            assert("Assigned"@.len() == 8);
            assert("Complete"@.len() == 8);
            assert("Assigned"@[0] == 'A');
            assert("Complete"@[0] == 'C');
        }
        match self {
            Status::Blocked => "Blocked",
            Status::Unassigned => "Unassigned",
            Status::Assigned => "Assigned",
            Status::Complete => "Complete",
        }
    }

    /// The status that bears `name`, if one does.
    pub fn from_name(name: &str) -> (r: Option<Status>)
        ensures
            r == status_named(name@),
    {
        if name.eq("Blocked") {
            Some(Status::Blocked)
        } else if name.eq("Unassigned") {
            Some(Status::Unassigned)
        } else if name.eq("Assigned") {
            Some(Status::Assigned)
        } else if name.eq("Complete") {
            Some(Status::Complete)
        } else {
            None
        }
    }
}

fn read_status(v: &TomlValue) -> (r: Option<Status>)
    ensures
        r == as_status(*v),
{
    match v {
        TomlValue::String(s) => Status::from_name(s.as_str()),
        _ => None,
    }
}

fn required_text(t: &Vec<(String, TomlValue)>, key: &str) -> (r: Option<String>)
    ensures
        r.deep_view() == text_at(t@, key@),
{
    match lookup(t, key) {
        Some(v) => read_text(v),
        None => None,
    }
}

fn optional_text(t: &Vec<(String, TomlValue)>, key: &str) -> (r: Option<Option<String>>)
    ensures
        r.deep_view() == optional(field(t@, key@), text_at(t@, key@)),
{
    match lookup(t, key) {
        Some(v) => match read_text(v) {
            Some(s) => Some(Some(s)),
            None => None,
        },
        None => Some(None),
    }
}

fn optional_texts(t: &Vec<(String, TomlValue)>, key: &str) -> (r: Option<Option<Vec<String>>>)
    ensures
        r.deep_view() == optional(field(t@, key@), texts_at(t@, key@)),
{
    match lookup(t, key) {
        Some(v) => match read_texts(v) {
            Some(s) => Some(Some(s)),
            None => None,
        },
        None => Some(None),
    }
}

fn optional_text_map(t: &Vec<(String, TomlValue)>, key: &str) -> (r: Option<Option<Dict<String>>>)
    ensures
        r.deep_view() == optional(field(t@, key@), text_map_at(t@, key@)),
{
    match lookup(t, key) {
        Some(v) => match read_text_map(v) {
            Some(s) => Some(Some(s)),
            None => None,
        },
        None => Some(None),
    }
}

fn optional_table_map(t: &Vec<(String, TomlValue)>, key: &str) -> (r: Option<
    Option<Dict<EmojiMap>>,
>)
    ensures
        r.deep_view() == optional(field(t@, key@), table_map_at(t@, key@)),
{
    match lookup(t, key) {
        Some(v) => match read_table_map(v) {
            Some(s) => Some(Some(s)),
            None => None,
        },
        None => Some(None),
    }
}

fn optional_width(t: &Vec<(String, TomlValue)>, key: &str) -> (r: Option<Option<Width>>)
    ensures
        r.deep_view() == optional(field(t@, key@), width_at(t@, key@)),
{
    match lookup(t, key) {
        Some(v) => match read_width(v) {
            Some(s) => Some(Some(s)),
            None => None,
        },
        None => Some(None),
    }
}

fn optional_status(t: &Vec<(String, TomlValue)>, key: &str) -> (r: Option<Option<Status>>)
    ensures
        r == optional(field(t@, key@), status_at(t@, key@)),
{
    match lookup(t, key) {
        Some(v) => match read_status(v) {
            Some(s) => Some(Some(s)),
            None => None,
        },
        None => Some(None),
    }
}

fn read_group(v: &TomlValue) -> (r: Option<Group>)
    ensures
        r.deep_view() == group_of(*v),
{
    let t = match v {
        TomlValue::Table(t) => t,
        _ => {
            return None;
        },
    };
    let name = match required_text(t, "name") {
        Some(x) => x,
        None => {
            return None;
        },
    };
    let cluster = match optional_text(t, "cluster") {
        Some(x) => x,
        None => {
            return None;
        },
    };
    let label = match optional_text(t, "label") {
        Some(x) => x,
        None => {
            return None;
        },
    };
    let dependencies = match optional_texts(t, "requires") {
        Some(x) => x,
        None => {
            return None;
        },
    };
    let description = match optional_texts(t, "description") {
        Some(x) => x,
        None => {
            return None;
        },
    };
    let items = match lookup(t, "items") {
        Some(v) => match read_items(v) {
            Some(x) => x,
            None => {
                return None;
            },
        },
        None => {
            return None;
        },
    };
    let width = match optional_width(t, "width") {
        Some(x) => x,
        None => {
            return None;
        },
    };
    let status = match optional_status(t, "status") {
        Some(x) => x,
        None => {
            return None;
        },
    };
    let href = match optional_text(t, "href") {
        Some(x) => x,
        None => {
            return None;
        },
    };
    let header_color = match optional_text(t, "header_color") {
        Some(x) => x,
        None => {
            return None;
        },
    };
    let description_color = match optional_text(t, "description_color") {
        Some(x) => x,
        None => {
            return None;
        },
    };
    Some(
        Group {
            name,
            cluster,
            label,
            dependencies,
            description,
            items,
            width,
            status,
            href,
            header_color,
            description_color,
        },
    )
}

fn read_cluster(v: &TomlValue) -> (r: Option<Cluster>)
    ensures
        r.deep_view() == cluster_of(*v),
{
    let t = match v {
        TomlValue::Table(t) => t,
        _ => {
            return None;
        },
    };
    let name = match required_text(t, "name") {
        Some(x) => x,
        None => {
            return None;
        },
    };
    let label = match required_text(t, "label") {
        Some(x) => x,
        None => {
            return None;
        },
    };
    let color = match optional_text(t, "color") {
        Some(x) => x,
        None => {
            return None;
        },
    };
    let style = match optional_text(t, "style") {
        Some(x) => x,
        None => {
            return None;
        },
    };
    Some(Cluster { name, label, color, style })
}

fn read_graphviz(v: &TomlValue) -> (r: Option<Graphviz>)
    ensures
        r.deep_view() == graphviz_of(*v),
{
    let t = match v {
        TomlValue::Table(t) => t,
        _ => {
            return None;
        },
    };
    match optional_text(t, "rankdir") {
        Some(rankdir) => Some(Graphviz { rankdir }),
        None => None,
    }
}

fn read_doc(v: &TomlValue) -> (r: Option<Doc>)
    ensures
        r.deep_view() == doc_of(*v),
{
    let t = match v {
        TomlValue::Table(t) => t,
        _ => {
            return None;
        },
    };
    let columns = match optional_texts(t, "columns") {
        Some(x) => x,
        None => {
            return None;
        },
    };
    let defaults = match optional_text_map(t, "defaults") {
        Some(x) => x,
        None => {
            return None;
        },
    };
    let emoji = match optional_table_map(t, "emoji") {
        Some(x) => x,
        None => {
            return None;
        },
    };
    let includes = match optional_texts(t, "include") {
        Some(x) => x,
        None => {
            return None;
        },
    };
    Some(Doc { columns, defaults, emoji, includes })
}

#[verifier::loop_isolation(false)]
fn read_groups(t: &Vec<(String, TomlValue)>) -> (r: Result<Option<Vec<Group>>, Part>)
    ensures
        match groups_in(t@) {
            Ok(groups) => r matches Ok(read) && read.deep_view() == groups,
            Err(part) => r matches Err(p) && p == part,
        },
{
    let a = match lookup(t, "group") {
        None => {
            return Ok(None);
        },
        Some(TomlValue::Array(a)) => a,
        Some(_) => {
            return Err(Part::Groups);
        },
    };
    let mut out: Vec<Group> = Vec::new();
    let mut i: usize = 0;
    while i < a.len()
        invariant
            i <= a@.len(),
            forall|j: int| 0 <= j < i ==> group_of(#[trigger] a@[j]) is Some,
            out.deep_view() == Seq::new(i as nat, |j: int| group_of(a@[j]).unwrap()),
        decreases a@.len() - i,
    {
        let ghost before = out.deep_view();
        match read_group(&a[i]) {
            Some(group) => {
                out.push(group);
            },
            None => {
                proof {
                    assert(first_bad_group(a@, i as int));
                    let c = choose|c: int| first_bad_group(a@, c);
                    assert(c == i);
                }
                return Err(Part::Group(i));
            },
        }
        assert(out.deep_view() =~= before.push(group_of(a@[i as int]).unwrap()));
        i += 1;
    }
    assert(forall|c: int| !first_bad_group(a@, c));
    Ok(Some(out))
}

#[verifier::loop_isolation(false)]
fn read_clusters(t: &Vec<(String, TomlValue)>) -> (r: Result<Option<Vec<Cluster>>, Part>)
    ensures
        match clusters_in(t@) {
            Ok(clusters) => r matches Ok(read) && read.deep_view() == clusters,
            Err(part) => r matches Err(p) && p == part,
        },
{
    let a = match lookup(t, "cluster") {
        None => {
            return Ok(None);
        },
        Some(TomlValue::Array(a)) => a,
        Some(_) => {
            return Err(Part::Clusters);
        },
    };
    let mut out: Vec<Cluster> = Vec::new();
    let mut i: usize = 0;
    while i < a.len()
        invariant
            i <= a@.len(),
            forall|j: int| 0 <= j < i ==> cluster_of(#[trigger] a@[j]) is Some,
            out.deep_view() == Seq::new(i as nat, |j: int| cluster_of(a@[j]).unwrap()),
        decreases a@.len() - i,
    {
        let ghost before = out.deep_view();
        match read_cluster(&a[i]) {
            Some(cluster) => {
                out.push(cluster);
            },
            None => {
                proof {
                    assert(first_bad_cluster(a@, i as int));
                    let c = choose|c: int| first_bad_cluster(a@, c);
                    assert(c == i);
                }
                return Err(Part::Cluster(i));
            },
        }
        assert(out.deep_view() =~= before.push(cluster_of(a@[i as int]).unwrap()));
        i += 1;
    }
    assert(forall|c: int| !first_bad_cluster(a@, c));
    Ok(Some(out))
}

/// What reading the TOML value `v` as a document gives: the document that
/// `v` stands for, or the first part of `v` that has the wrong shape.
pub open spec fn decoded(v: TomlValue) -> Result<SkillTreeView, ParseErrorView> {
    match tree_of(v) {
        Ok(tree) => Ok(tree),
        Err(part) => Err(ParseErrorView::Malformed { part }),
    }
}

/// What reading `text` as a document gives. A text that nests too deep
/// is not handed to the TOML parser. Of any other, it is what the value
/// that the parser reads from it stands for, or a syntax error with the
/// parser's words where the parser refuses the text.
pub open spec fn document_of(text: Seq<char>) -> Result<SkillTreeView, ParseErrorView> {
    if too_deep(text) {
        Err(ParseErrorView::TooDeep)
    } else {
        match toml_document(text) {
            Ok(value) => decoded(value),
            Err(message) => Err(ParseErrorView::Syntax { message }),
        }
    }
}

/// The mathematical value of the outcome of reading a document.
pub open spec fn outcome(r: Result<SkillTree, ParseError>) -> Result<
    SkillTreeView,
    ParseErrorView,
> {
    match r {
        Ok(tree) => Ok(tree@),
        Err(e) => Err(e@),
    }
}

impl SkillTree {
    /// Reads a TOML value as a document. Entries that the model does not
    /// know are passed over; an entry that it knows must have its type.
    pub fn from_toml(value: &TomlValue) -> (r: Result<SkillTree, ParseError>)
        ensures
            outcome(r) == decoded(*value),
    {
        let t = match value {
            TomlValue::Table(t) => t,
            _ => {
                return Err(ParseError::Malformed { part: Part::Document });
            },
        };
        let group = match read_groups(t) {
            Ok(group) => group,
            Err(part) => {
                return Err(ParseError::Malformed { part });
            },
        };
        let cluster = match read_clusters(t) {
            Ok(cluster) => cluster,
            Err(part) => {
                return Err(ParseError::Malformed { part });
            },
        };
        let graphviz = match lookup(t, "graphviz") {
            None => None,
            Some(v) => match read_graphviz(v) {
                Some(graphviz) => Some(graphviz),
                None => {
                    return Err(ParseError::Malformed { part: Part::Graphviz });
                },
            },
        };
        let doc = match lookup(t, "doc") {
            None => None,
            Some(v) => match read_doc(v) {
                Some(doc) => Some(doc),
                None => {
                    return Err(ParseError::Malformed { part: Part::Doc });
                },
            },
        };
        Ok(SkillTree { group, cluster, graphviz, doc })
    }

    /// Reads a document from its text. A text that nests deeper than
    /// `MAX_NESTING` is refused unread. A text that is not TOML is refused
    /// with the parser's message; one that is TOML is read as `from_toml`
    /// reads the value the parser gives for it.
    pub fn parse(text: &str) -> (r: Result<SkillTree, ParseError>)
        ensures
            outcome(r) == document_of(text@),
    {
        if nests_too_deep(text) {
            return Err(ParseError::TooDeep);
        }
        match read_document(text) {
            Ok(value) => SkillTree::from_toml(&value),
            Err(message) => Err(ParseError::Syntax { message }),
        }
    }
}

} // verus!
