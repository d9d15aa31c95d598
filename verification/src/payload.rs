use vstd::prelude::*;
use crate::vault_types::{
    column_views, row_views, texts, Column, Row, SizeBound, StoreError, VaultData,
    VaultDataView,
};

verus! {

/// The Candid encoding of a vault, where it has one: what
/// `candid::encode_one` gives for the vault's name, its columns as
/// `(id, name, hidden)` and its rows as `(id, values)`.
pub uninterp spec fn payload_bytes(data: VaultDataView) -> Option<Seq<u8>>;

/// The vault that a byte string is the Candid encoding of, where it is one:
/// what `candid::decode_one` reads from it as a name, columns and rows.
pub uninterp spec fn payload_value(bytes: Seq<u8>) -> Option<VaultDataView>;

/// `candid::encode_one` on the vault as a triple of its name, its columns
/// and its rows. The bytes depend on the vault's value alone.
#[verifier::external_body]
fn candid_encode(data: &VaultData) -> (r: Option<Vec<u8>>)
    ensures
        match r {
            Some(b) => payload_bytes(data@) == Some(b@),
            None => payload_bytes(data@) is None,
        },
{
    let columns: Vec<(&String, &String, bool)> =
        data.columns.iter().map(|c| (&c.id, &c.name, c.hidden)).collect();
    let rows: Vec<(&String, &Vec<String>)> = data.rows.iter().map(|r| (&r.id, &r.values)).collect();
    candid::encode_one((&data.name, columns, rows)).ok()
}

/// `candid::decode_one` for a triple of a name, columns and rows, made into
/// a vault. What is read depends on the bytes alone.
#[verifier::external_body]
fn candid_decode(bytes: &Vec<u8>) -> (r: Option<VaultData>)
    ensures
        match r {
            Some(d) => payload_value(bytes@) == Some(d@),
            None => payload_value(bytes@) is None,
        },
{
    let read: Result<(String, Vec<(String, String, bool)>, Vec<(String, Vec<String>)>), candid::Error> =
        candid::decode_one(bytes);
    let (name, cols, rws) = read.ok()?;
    let columns = cols.into_iter().map(|(id, name, hidden)| Column { id, name, hidden }).collect();
    let rows = rws.into_iter().map(|(id, values)| Row { id, values }).collect();
    Some(VaultData { name, columns, rows })
}

/// The vault has an encoding, and decoding it gives the vault back.
pub open spec fn reads_back(data: VaultDataView) -> bool {
    payload_bytes(data) matches Some(b) && payload_value(b) == Some(data)
}

/// Whether two lists of strings hold the same texts in the same order.
pub fn same_texts(a: &Vec<String>, b: &Vec<String>) -> (r: bool)
    ensures
        r == (texts(a@) == texts(b@)),
{
    if a.len() != b.len() {
        assert(texts(a@).len() != texts(b@).len());
        return false;
    }
    let mut i: usize = 0;
    while i < a.len()
        invariant
            i <= a.len(),
            a.len() == b.len(),
            forall|j: int| 0 <= j < i ==> (#[trigger] a@[j])@ == b@[j]@,
        decreases a.len() - i,
    {
        if a[i] != b[i] {
            assert(texts(a@)[i as int] != texts(b@)[i as int]);
            return false;
        }
        i += 1;
    }
    assert(texts(a@) =~= texts(b@));
    true
}

/// Whether two lists of columns hold the same columns in the same order.
pub fn same_columns(a: &Vec<Column>, b: &Vec<Column>) -> (r: bool)
    ensures
        r == (column_views(a@) == column_views(b@)),
{
    if a.len() != b.len() {
        assert(column_views(a@).len() != column_views(b@).len());
        return false;
    }
    let mut i: usize = 0;
    while i < a.len()
        invariant
            i <= a.len(),
            a.len() == b.len(),
            forall|j: int| 0 <= j < i ==> (#[trigger] a@[j])@ == b@[j]@,
        decreases a.len() - i,
    {
        if a[i].id != b[i].id || a[i].name != b[i].name || a[i].hidden != b[i].hidden {
            assert(column_views(a@)[i as int] != column_views(b@)[i as int]);
            return false;
        }
        i += 1;
    }
    assert(column_views(a@) =~= column_views(b@));
    true
}

/// Whether two lists of rows hold the same rows in the same order.
pub fn same_rows(a: &Vec<Row>, b: &Vec<Row>) -> (r: bool)
    ensures
        r == (row_views(a@) == row_views(b@)),
{
    if a.len() != b.len() {
        assert(row_views(a@).len() != row_views(b@).len());
        return false;
    }
    let mut i: usize = 0;
    while i < a.len()
        invariant
            i <= a.len(),
            a.len() == b.len(),
            forall|j: int| 0 <= j < i ==> (#[trigger] a@[j])@ == b@[j]@,
        decreases a.len() - i,
    {
        if a[i].id != b[i].id || !same_texts(&a[i].values, &b[i].values) {
            assert(row_views(a@)[i as int] != row_views(b@)[i as int]);
            return false;
        }
        i += 1;
    }
    assert(row_views(a@) =~= row_views(b@));
    true
}

/// Whether two vaults have the same value.
pub fn same_vault(a: &VaultData, b: &VaultData) -> (r: bool)
    ensures
        r == (a@ == b@),
{
    a.name == b.name && same_columns(&a.columns, &b.columns) && same_rows(&a.rows, &b.rows)
}

/// What the outcome of encoding `data`, and of decoding the bytes again,
/// means to a caller: the bytes where they read back as `data`, and
/// `EncodeFailure` otherwise.
pub fn checked_payload(data: &VaultData, bytes: Vec<u8>, read: Option<VaultData>) -> (r: Result<
    Vec<u8>,
    StoreError,
>)
    ensures
        match read {
            Some(d) => if d@ == data@ {
                r == Ok::<Vec<u8>, StoreError>(bytes)
            } else {
                r == Err::<Vec<u8>, StoreError>(StoreError::EncodeFailure)
            },
            None => r == Err::<Vec<u8>, StoreError>(StoreError::EncodeFailure),
        },
{
    match read {
        Some(d) => if same_vault(&d, data) {
            Ok(bytes)
        } else {
            Err(StoreError::EncodeFailure)
        },
        None => Err(StoreError::EncodeFailure),
    }
}

/// What a decoder's outcome means to a caller of the library.
pub fn decoded_or_error(outcome: Option<VaultData>) -> (r: Result<VaultData, StoreError>)
    ensures
        match outcome {
            Some(d) => r == Ok::<VaultData, StoreError>(d),
            None => r == Err::<VaultData, StoreError>(StoreError::DecodeFailure),
        },
{
    match outcome {
        Some(d) => Ok(d),
        None => Err(StoreError::DecodeFailure),
    }
}

impl VaultData {
    /// The declared size of encoded vaults: none, they may have any length.
    pub fn bound() -> (b: SizeBound)
        ensures
            b == SizeBound::Unbounded,
    {
        SizeBound::Unbounded
    }

    /// Encodes the vault and checks the bytes by decoding them: `Ok` with
    /// bytes that decode to this vault, or `EncodeFailure` where the vault
    /// has no such encoding.
    pub fn to_bytes(&self) -> (r: Result<Vec<u8>, StoreError>)
        ensures
            match r {
                Ok(b) => payload_bytes(self@) == Some(b@) && payload_value(b@) == Some(self@),
                Err(e) => e == StoreError::EncodeFailure && !reads_back(self@),
            },
    {
        match candid_encode(self) {
            None => Err(StoreError::EncodeFailure),
            Some(bytes) => {
                let read = candid_decode(&bytes);
                checked_payload(self, bytes, read)
            },
        }
    }

    /// Encodes the vault and gives it up; the result is that of `to_bytes`.
    pub fn into_bytes(self) -> (r: Result<Vec<u8>, StoreError>)
        ensures
            match r {
                Ok(b) => payload_bytes(self@) == Some(b@) && payload_value(b@) == Some(self@),
                Err(e) => e == StoreError::EncodeFailure && !reads_back(self@),
            },
    {
        self.to_bytes()
    }

    /// Decodes a vault: the vault that `bytes` encode, or `DecodeFailure`
    /// where they encode none.
    pub fn from_bytes(bytes: &Vec<u8>) -> (r: Result<VaultData, StoreError>)
        ensures
            match r {
                Ok(d) => payload_value(bytes@) == Some(d@),
                Err(e) => e == StoreError::DecodeFailure && payload_value(bytes@) is None,
            },
    {
        decoded_or_error(candid_decode(bytes))
    }
}

} // verus!
