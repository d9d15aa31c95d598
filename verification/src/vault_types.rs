use vstd::prelude::*;

verus! {

/// Identifier of the owner of a vault.
pub type UserId = String;

/// Identifier of one vault among those of a user.
pub type VaultId = String;

/// Mathematical value of a key: the owner's id and the vault's id.
pub type KeyView = (Seq<char>, Seq<char>);

/// Composite key of a vault, ordered by `user_id` first and `vault_id` second.
#[derive(Clone, Debug, PartialEq, Eq, PartialOrd, Ord)]
pub struct VaultKey {
    pub user_id: UserId,
    pub vault_id: VaultId,
}

/// One column of a vault. A hidden column holds secret cells.
#[derive(Clone, Debug, PartialEq, Eq)]
pub struct Column {
    pub id: String,
    pub name: String,
    pub hidden: bool,
}

/// One row of a vault; each value is an opaque encrypted cell.
#[derive(Clone, Debug, PartialEq, Eq)]
pub struct Row {
    pub id: String,
    pub values: Vec<String>,
}

/// A named table of encrypted rows and columns.
#[derive(Clone, Debug, PartialEq, Eq)]
pub struct VaultData {
    pub name: String,
    pub columns: Vec<Column>,
    pub rows: Vec<Row>,
}

pub ghost struct ColumnView {
    pub id: Seq<char>,
    pub name: Seq<char>,
    pub hidden: bool,
}

pub ghost struct RowView {
    pub id: Seq<char>,
    pub values: Seq<Seq<char>>,
}

pub ghost struct VaultDataView {
    pub name: Seq<char>,
    pub columns: Seq<ColumnView>,
    pub rows: Seq<RowView>,
}

/// The texts of a sequence of strings.
pub open spec fn texts(strings: Seq<String>) -> Seq<Seq<char>> {
    strings.map_values(|s: String| s@)
}

/// The values of a sequence of columns.
pub open spec fn column_views(columns: Seq<Column>) -> Seq<ColumnView> {
    columns.map_values(|c: Column| c@)
}

/// The values of a sequence of rows.
pub open spec fn row_views(rows: Seq<Row>) -> Seq<RowView> {
    rows.map_values(|r: Row| r@)
}

impl View for VaultKey {
    type V = KeyView;

    open spec fn view(&self) -> KeyView {
        (self.user_id@, self.vault_id@)
    }
}

impl View for Column {
    type V = ColumnView;

    open spec fn view(&self) -> ColumnView {
        ColumnView { id: self.id@, name: self.name@, hidden: self.hidden }
    }
}

impl View for Row {
    type V = RowView;

    open spec fn view(&self) -> RowView {
        RowView { id: self.id@, values: texts(self.values@) }
    }
}

impl View for VaultData {
    type V = VaultDataView;

    open spec fn view(&self) -> VaultDataView {
        VaultDataView {
            name: self.name@,
            columns: column_views(self.columns@),
            rows: row_views(self.rows@),
        }
    }
}

/// The size that a codec declares for its encodings.
#[derive(Clone, Copy, Debug, PartialEq, Eq, Structural)]
pub enum SizeBound {
    /// Encodings may have any length.
    Unbounded,
    /// No encoding is longer than `max_size` bytes; with `is_fixed_size`
    /// each has exactly that length.
    Bounded { max_size: u32, is_fixed_size: bool },
}

/// Why an operation of the store did not complete.
#[derive(Clone, Copy, Debug, PartialEq, Eq, Structural)]
pub enum StoreError {
    /// An encoded key is longer than the key codec's declared bound.
    CapacityExceeded,
    /// Stored bytes are not the encoding of a value of the expected type.
    DecodeFailure,
    /// A value has no encoding from which it can be read back.
    EncodeFailure,
}

} // verus!
