//! TOML documents, as plain values.

use crate::number::Number;
use crate::text::same_text;
use vstd::prelude::*;

verus! {

/// An item of a document.
pub enum ConfigItem {
    /// Nothing.
    Empty,
    Text(String),
    Integer(i64),
    Float(Number),
    Boolean(bool),
    Datetime,
    Array(Vec<ConfigItem>),
    /// A table, inline or not.
    Table(Vec<ConfigEntry>),
    /// An array of tables.
    Tables(Vec<Vec<ConfigEntry>>),
}

/// An entry of a table.
pub struct ConfigEntry {
    pub key: String,
    pub item: ConfigItem,
}

/// What an item of a document says.
pub enum ItemView {
    Empty,
    Text(Seq<char>),
    Integer(i64),
    Float(Number),
    Boolean(bool),
    Datetime,
    Array(Seq<ItemView>),
    Table(Seq<(Seq<char>, ItemView)>),
    Tables(Seq<Seq<(Seq<char>, ItemView)>>),
}

/// What a table says: its keys and items, in their order.
pub type TableView = Seq<(Seq<char>, ItemView)>;

/// What an item says.
pub open spec fn item_says(item: ConfigItem) -> ItemView
    decreases item,
{
    match item {
        ConfigItem::Empty => ItemView::Empty,
        ConfigItem::Text(text) => ItemView::Text(text@),
        ConfigItem::Integer(integer) => ItemView::Integer(integer),
        ConfigItem::Float(number) => ItemView::Float(number),
        ConfigItem::Boolean(boolean) => ItemView::Boolean(boolean),
        ConfigItem::Datetime => ItemView::Datetime,
        ConfigItem::Array(items) => ItemView::Array(items_say(items@)),
        ConfigItem::Table(entries) => ItemView::Table(table_says(entries@)),
        ConfigItem::Tables(tables) => ItemView::Tables(tables_say(tables@)),
    }
}

/// What the items of an array say.
pub open spec fn items_say(items: Seq<ConfigItem>) -> Seq<ItemView>
    decreases items,
{
    if items.len() == 0 {
        Seq::empty()
    } else {
        items_say(items.drop_last()).push(item_says(items.last()))
    }
}

/// What a table says.
pub open spec fn table_says(entries: Seq<ConfigEntry>) -> TableView
    decreases entries,
{
    if entries.len() == 0 {
        Seq::empty()
    } else {
        table_says(entries.drop_last()).push(
            (entries.last().key@, item_says(entries.last().item)),
        )
    }
}

/// What an array of tables says.
pub open spec fn tables_say(tables: Seq<Vec<ConfigEntry>>) -> Seq<TableView>
    decreases tables,
{
    if tables.len() == 0 {
        Seq::empty()
    } else {
        tables_say(tables.drop_last()).push(table_says(tables.last()@))
    }
}

/// An item of `toml_edit`. What it holds is named [`item_contents`].
#[verifier::external_type_specification]
#[verifier::external_body]
pub struct ExItem(toml_edit::Item);

/// A value of `toml_edit`. What it holds is named [`value_contents`].
#[verifier::external_type_specification]
#[verifier::external_body]
pub struct ExValue(toml_edit::Value);

/// A table of `toml_edit`. What it holds is named [`table_contents`].
#[verifier::external_type_specification]
#[verifier::external_body]
pub struct ExTable(toml_edit::Table);

/// An inline table of `toml_edit`. What it holds is named [`inline_contents`].
#[verifier::external_type_specification]
#[verifier::external_body]
pub struct ExInlineTable(toml_edit::InlineTable);

/// An array of `toml_edit`. What it holds is named [`array_contents`].
#[verifier::external_type_specification]
#[verifier::external_body]
pub struct ExArray(toml_edit::Array);

/// An array of tables of `toml_edit`. What it holds is named [`tables_contents`].
#[verifier::external_type_specification]
#[verifier::external_body]
pub struct ExArrayOfTables(toml_edit::ArrayOfTables);

/// What `DocumentMut` reads from a text: the root table, or the message of the error.
pub uninterp spec fn toml_document(raw: Seq<char>) -> Result<TableView, Seq<char>>;

/// What an item holds.
pub uninterp spec fn item_contents(item: toml_edit::Item) -> ItemView;

/// What a value holds.
pub uninterp spec fn value_contents(value: toml_edit::Value) -> ItemView;

/// The keys and items that a table holds, in their order.
pub uninterp spec fn table_contents(table: toml_edit::Table) -> TableView;

/// The keys and items that an inline table holds, in their order.
pub uninterp spec fn inline_contents(table: toml_edit::InlineTable) -> TableView;

/// The values that an array holds, in their order.
pub uninterp spec fn array_contents(array: toml_edit::Array) -> Seq<ItemView>;

/// The tables that an array of tables holds, in their order.
pub uninterp spec fn tables_contents(tables: toml_edit::ArrayOfTables) -> Seq<TableView>;

/// The kinds of items.
enum ItemKind<'a> {
    Empty,
    Value(&'a toml_edit::Value),
    Table(&'a toml_edit::Table),
    Tables(&'a toml_edit::ArrayOfTables),
}

/// The kinds of values.
enum ValueKind<'a> {
    Text(String),
    Integer(i64),
    Float(Number),
    Boolean(bool),
    Datetime,
    Array(&'a toml_edit::Array),
    Table(&'a toml_edit::InlineTable),
}

/// Calls the `FromStr` of `toml_edit::DocumentMut` and hands out the root table, or the message of
/// the error. Which it is depends on the text alone; what the table holds is not stated.
#[verifier::external_body]
fn parse_document(raw: &str) -> (root: Result<toml_edit::Table, String>)
    ensures
        match root {
            Ok(table) => toml_document(raw@) == Ok::<TableView, Seq<char>>(table_contents(table)),
            Err(message) => toml_document(raw@) == Err::<TableView, Seq<char>>(message@),
        },
{
    match raw.parse::<toml_edit::DocumentMut>() {
        Ok(document) => Ok(document.into_table()),
        Err(error) => Err(error.to_string()),
    }
}

/// Calls `toml_edit::Table::iter`, which goes through the keys and items in their order.
#[verifier::external_body]
fn table_entries<'a>(table: &'a toml_edit::Table) -> (entries: Vec<(String, &'a toml_edit::Item)>)
    ensures
        entries@.len() == table_contents(*table).len(),
        forall|i: int|
            0 <= i < entries@.len() ==> (#[trigger] entries@[i]).0@ == table_contents(*table)[i].0
                && item_contents(*entries@[i].1) == table_contents(*table)[i].1,
{
    table.iter().map(|(key, item)| (key.to_owned(), item)).collect()
}

/// Calls `toml_edit::TableLike::iter` on an inline table, which goes through the keys and items in
/// their order.
#[verifier::external_body]
fn inline_entries<'a>(table: &'a toml_edit::InlineTable) -> (entries: Vec<
    (String, &'a toml_edit::Item),
>)
    ensures
        entries@.len() == inline_contents(*table).len(),
        forall|i: int|
            0 <= i < entries@.len() ==> (#[trigger] entries@[i]).0@ == inline_contents(*table)[i].0
                && item_contents(*entries@[i].1) == inline_contents(*table)[i].1,
{
    toml_edit::TableLike::iter(table).map(|(key, item)| (key.to_owned(), item)).collect()
}

/// Calls `toml_edit::Array::iter`, which goes through the values in their order.
#[verifier::external_body]
fn array_values<'a>(array: &'a toml_edit::Array) -> (values: Vec<&'a toml_edit::Value>)
    ensures
        values@.len() == array_contents(*array).len(),
        forall|i: int|
            0 <= i < values@.len() ==> value_contents(*#[trigger] values@[i]) == array_contents(
                *array,
            )[i],
{
    array.iter().collect()
}

/// Calls `toml_edit::ArrayOfTables::iter`, which goes through the tables in their order.
#[verifier::external_body]
fn array_tables<'a>(tables: &'a toml_edit::ArrayOfTables) -> (list: Vec<&'a toml_edit::Table>)
    ensures
        list@.len() == tables_contents(*tables).len(),
        forall|i: int|
            0 <= i < list@.len() ==> table_contents(*#[trigger] list@[i]) == tables_contents(
                *tables,
            )[i],
{
    tables.iter().collect()
}

/// Tells the variants of `toml_edit::Item` apart. An item holds what is in its variant.
#[verifier::external_body]
fn item_kind<'a>(item: &'a toml_edit::Item) -> (kind: ItemKind<'a>)
    ensures
        item_contents(*item) == (match kind {
            ItemKind::Empty => ItemView::Empty,
            ItemKind::Value(value) => value_contents(*value),
            ItemKind::Table(table) => ItemView::Table(table_contents(*table)),
            ItemKind::Tables(tables) => ItemView::Tables(tables_contents(*tables)),
        }),
{
    match item {
        toml_edit::Item::None => ItemKind::Empty,
        toml_edit::Item::Value(value) => ItemKind::Value(value),
        toml_edit::Item::Table(table) => ItemKind::Table(table),
        toml_edit::Item::ArrayOfTables(tables) => ItemKind::Tables(tables),
    }
}

/// Tells the variants of `toml_edit::Value` apart. A value holds what is in its variant; a float is
/// given by its bits.
#[verifier::external_body]
fn value_kind<'a>(value: &'a toml_edit::Value) -> (kind: ValueKind<'a>)
    ensures
        value_contents(*value) == (match kind {
            ValueKind::Text(text) => ItemView::Text(text@),
            ValueKind::Integer(integer) => ItemView::Integer(integer),
            ValueKind::Float(number) => ItemView::Float(number),
            ValueKind::Boolean(boolean) => ItemView::Boolean(boolean),
            ValueKind::Datetime => ItemView::Datetime,
            ValueKind::Array(array) => ItemView::Array(array_contents(*array)),
            ValueKind::Table(table) => ItemView::Table(inline_contents(*table)),
        }),
{
    match value {
        toml_edit::Value::String(text) => ValueKind::Text(text.value().clone()),
        toml_edit::Value::Integer(integer) => ValueKind::Integer(*integer.value()),
        toml_edit::Value::Float(float) => ValueKind::Float(Number { bits: float.value().to_bits() }),
        toml_edit::Value::Boolean(boolean) => ValueKind::Boolean(*boolean.value()),
        toml_edit::Value::Datetime(_) => ValueKind::Datetime,
        toml_edit::Value::Array(array) => ValueKind::Array(array),
        toml_edit::Value::InlineTable(table) => ValueKind::Table(table),
    }
}

fn read_item(item: &toml_edit::Item) -> (read: ConfigItem)
    ensures
        item_says(read) == item_contents(*item),
    decreases item_contents(*item), 1nat,
{
    match item_kind(item) {
        ItemKind::Empty => ConfigItem::Empty,
        ItemKind::Value(value) => read_value(value),
        ItemKind::Table(table) => {
            assert(decreases_to!(item_contents(*item) => item_contents(*item)->Table_0));
            ConfigItem::Table(read_table(table))
        },
        ItemKind::Tables(tables) => {
            let list = array_tables(tables);
            let ghost wanted = tables_contents(*tables);
            let mut read: Vec<Vec<ConfigEntry>> = Vec::new();
            let mut i: usize = 0;
            assert(wanted.take(0) =~= Seq::<TableView>::empty());
            while i < list.len()
                invariant
                    i <= list@.len(),
                    item_contents(*item) == ItemView::Tables(wanted),
                    list@.len() == wanted.len(),
                    forall|j: int|
                        0 <= j < list@.len() ==> table_contents(*#[trigger] list@[j]) == wanted[j],
                    tables_say(read@) == wanted.take(i as int),
                decreases list.len() - i,
            {
                let ghost before = read@;
                assert(decreases_to!(item_contents(*item) => item_contents(*item)->Tables_0));
                assert(decreases_to!(wanted => wanted[i as int]));
                let table = read_table(list[i]);
                read.push(table);
                proof {
                    assert(read@.drop_last() =~= before);
                    assert(wanted.take(i + 1) =~= wanted.take(i as int).push(wanted[i as int]));
                }
                i = i + 1;
            }
            assert(wanted.take(i as int) =~= wanted);
            ConfigItem::Tables(read)
        },
    }
}

fn read_value(value: &toml_edit::Value) -> (read: ConfigItem)
    ensures
        item_says(read) == value_contents(*value),
    decreases value_contents(*value), 0nat,
{
    match value_kind(value) {
        ValueKind::Text(text) => ConfigItem::Text(text),
        ValueKind::Integer(integer) => ConfigItem::Integer(integer),
        ValueKind::Float(number) => ConfigItem::Float(number),
        ValueKind::Boolean(boolean) => ConfigItem::Boolean(boolean),
        ValueKind::Datetime => ConfigItem::Datetime,
        ValueKind::Array(array) => {
            let values = array_values(array);
            let ghost wanted = array_contents(*array);
            let mut read: Vec<ConfigItem> = Vec::new();
            let mut i: usize = 0;
            assert(wanted.take(0) =~= Seq::<ItemView>::empty());
            while i < values.len()
                invariant
                    i <= values@.len(),
                    value_contents(*value) == ItemView::Array(wanted),
                    values@.len() == wanted.len(),
                    forall|j: int|
                        0 <= j < values@.len() ==> value_contents(*#[trigger] values@[j])
                            == wanted[j],
                    items_say(read@) == wanted.take(i as int),
                decreases values.len() - i,
            {
                let ghost before = read@;
                assert(decreases_to!(value_contents(*value) => value_contents(*value)->Array_0));
                assert(decreases_to!(wanted => wanted[i as int]));
                let item = read_value(values[i]);
                read.push(item);
                proof {
                    assert(read@.drop_last() =~= before);
                    assert(wanted.take(i + 1) =~= wanted.take(i as int).push(wanted[i as int]));
                }
                i = i + 1;
            }
            assert(wanted.take(i as int) =~= wanted);
            ConfigItem::Array(read)
        },
        ValueKind::Table(table) => {
            assert(decreases_to!(value_contents(*value) => value_contents(*value)->Table_0));
            let entries = inline_entries(table);
            ConfigItem::Table(read_entries(&entries, Ghost(inline_contents(*table))))
        },
    }
}

fn read_table(table: &toml_edit::Table) -> (read: Vec<ConfigEntry>)
    ensures
        table_says(read@) == table_contents(*table),
    decreases table_contents(*table), 1nat,
{
    let entries = table_entries(table);
    read_entries(&entries, Ghost(table_contents(*table)))
}

fn read_entries(
    entries: &Vec<(String, &toml_edit::Item)>,
    Ghost(wanted): Ghost<TableView>,
) -> (read: Vec<ConfigEntry>)
    requires
        entries@.len() == wanted.len(),
        forall|i: int|
            0 <= i < entries@.len() ==> (#[trigger] entries@[i]).0@ == wanted[i].0
                && item_contents(*entries@[i].1) == wanted[i].1,
    ensures
        table_says(read@) == wanted,
    decreases wanted, 0nat,
{
    let mut read: Vec<ConfigEntry> = Vec::new();
    let mut i: usize = 0;
    assert(wanted.take(0) =~= Seq::<(Seq<char>, ItemView)>::empty());
    while i < entries.len()
        invariant
            i <= entries@.len(),
            entries@.len() == wanted.len(),
            forall|j: int|
                0 <= j < entries@.len() ==> (#[trigger] entries@[j]).0@ == wanted[j].0
                    && item_contents(*entries@[j].1) == wanted[j].1,
            table_says(read@) == wanted.take(i as int),
        decreases entries.len() - i,
    {
        let ghost before = read@;
        assert(decreases_to!(wanted => wanted[i as int]));
        assert(decreases_to!(wanted[i as int] => wanted[i as int].1));
        let item = read_item(entries[i].1);
        let entry = ConfigEntry { key: entries[i].0.clone(), item };
        read.push(entry);
        proof {
            assert(read@.drop_last() =~= before);
            assert(wanted.take(i + 1) =~= wanted.take(i as int).push(wanted[i as int]));
        }
        i = i + 1;
    }
    assert(wanted.take(i as int) =~= wanted);
    read
}

/// Reads a TOML document: its root table, or the message of what is wrong with it.
pub fn read_document(raw: &str) -> (read: Result<Vec<ConfigEntry>, String>)
    ensures
        match read {
            Ok(table) => toml_document(raw@) == Ok::<TableView, Seq<char>>(table_says(table@)),
            Err(message) => toml_document(raw@) == Err::<TableView, Seq<char>>(message@),
        },
{
    match parse_document(raw) {
        Ok(table) => Ok(read_table(&table)),
        Err(message) => Err(message),
    }
}

/// What a table says, entry by entry.
pub proof fn lemma_table_says(entries: Seq<ConfigEntry>)
    ensures
        table_says(entries).len() == entries.len(),
        forall|i: int|
            0 <= i < entries.len() ==> #[trigger] table_says(entries)[i] == (
                entries[i].key@,
                item_says(entries[i].item),
            ),
    decreases entries.len(),
{
    if entries.len() > 0 {
        lemma_table_says(entries.drop_last());
        assert forall|i: int| 0 <= i < entries.len() implies #[trigger] table_says(entries)[i] == (
            entries[i].key@,
            item_says(entries[i].item),
        ) by {
            if i < entries.len() - 1 {
                assert(table_says(entries.drop_last())[i] == table_says(entries)[i]);
            }
        }
    }
}

/// What an array says, item by item.
pub proof fn lemma_items_say(items: Seq<ConfigItem>)
    ensures
        items_say(items).len() == items.len(),
        forall|i: int|
            0 <= i < items.len() ==> #[trigger] items_say(items)[i] == item_says(items[i]),
    decreases items.len(),
{
    if items.len() > 0 {
        lemma_items_say(items.drop_last());
        assert forall|i: int| 0 <= i < items.len() implies #[trigger] items_say(items)[i]
            == item_says(items[i]) by {
            if i < items.len() - 1 {
                assert(items_say(items.drop_last())[i] == items_say(items)[i]);
            }
        }
    }
}

/// What an array of tables says, table by table.
pub proof fn lemma_tables_say(tables: Seq<Vec<ConfigEntry>>)
    ensures
        tables_say(tables).len() == tables.len(),
        forall|i: int|
            0 <= i < tables.len() ==> #[trigger] tables_say(tables)[i] == table_says(tables[i]@),
    decreases tables.len(),
{
    if tables.len() > 0 {
        lemma_tables_say(tables.drop_last());
        assert forall|i: int| 0 <= i < tables.len() implies #[trigger] tables_say(tables)[i]
            == table_says(tables[i]@) by {
            if i < tables.len() - 1 {
                assert(tables_say(tables.drop_last())[i] == tables_say(tables)[i]);
            }
        }
    }
}

/// The item that a table holds under a key.
pub open spec fn entry_of(table: TableView, key: Seq<char>) -> Option<ItemView>
    decreases table.len(),
{
    if table.len() == 0 {
        None
    } else if table.last().0 == key {
        Some(table.last().1)
    } else {
        entry_of(table.drop_last(), key)
    }
}

/// The item that a table holds under a key.
pub fn find_entry<'a>(table: &'a Vec<ConfigEntry>, key: &str) -> (item: Option<&'a ConfigItem>)
    ensures
        match item {
            Some(item) => entry_of(table_says(table@), key@) == Some(item_says(*item)),
            None => entry_of(table_says(table@), key@) is None,
        },
{
    let ghost view = table_says(table@);
    let mut count: usize = table.len();
    proof {
        lemma_table_says(table@);
        assert(view.take(count as int) =~= view);
    }
    while count > 0
        invariant
            count <= table@.len(),
            view == table_says(table@),
            view.len() == table@.len(),
            forall|i: int|
                0 <= i < table@.len() ==> #[trigger] view[i] == (
                    table@[i].key@,
                    item_says(table@[i].item),
                ),
            entry_of(view.take(count as int), key@) == entry_of(view, key@),
        decreases count,
    {
        assert(view.take(count as int).last() == view[count - 1]);
        if same_text(table[count - 1].key.as_str(), key) {
            return Some(&table[count - 1].item);
        }
        assert(view.take(count as int).drop_last() =~= view.take(count - 1));
        count = count - 1;
    }
    None
}

/// What a table holds under a key is the item of the last entry with that key, and nothing if there is
/// none.
pub proof fn law_entries_are_found_by_their_keys(table: TableView, key: Seq<char>)
    ensures
        match entry_of(table, key) {
            Some(item) => exists|i: int|
                #![trigger table[i]]
                0 <= i < table.len() && table[i] == (key, item) && forall|j: int|
                    i < j < table.len() ==> (#[trigger] table[j]).0 != key,
            None => forall|i: int| 0 <= i < table.len() ==> (#[trigger] table[i]).0 != key,
        },
    decreases table.len(),
{
    if table.len() > 0 {
        let last = table.len() - 1;
        if table.last().0 == key {
            assert(table[last] == (key, table.last().1));
        } else {
            let front = table.drop_last();
            law_entries_are_found_by_their_keys(front, key);
            assert forall|i: int| 0 <= i < last implies front[i] == table[i] by {}
            if let Some(item) = entry_of(front, key) {
                let i = choose|i: int|
                    #![trigger front[i]]
                    0 <= i < front.len() && front[i] == (key, item) && forall|j: int|
                        i < j < front.len() ==> (#[trigger] front[j]).0 != key;
                assert(table[i] == (key, item));
                assert forall|j: int| i < j < table.len() implies (#[trigger] table[j]).0 != key by {
                    if j < last {
                        assert(front[j].0 != key);
                    }
                }
            } else {
                assert forall|i: int| 0 <= i < table.len() implies (#[trigger] table[i]).0 != key by {
                    if i < last {
                        assert(front[i].0 != key);
                    }
                }
            }
        }
    }
}

} // verus!
