use vstd::prelude::*;
use vstd::utf8::*;
use vstd::string::*;
use crate::byte_order::{
    bytes_lt, lemma_bytes_lt_asymmetric, lemma_bytes_lt_common_prefix,
    lemma_bytes_lt_irreflexive, lemma_bytes_lt_total,
};
use crate::vault_types::{KeyView, SizeBound, StoreError, VaultKey};

verus! {

/// Declared bound of the key codec: no encoded key is longer than this.
pub const KEY_MAX_SIZE: usize = 512;

/// A byte string made self-delimiting without changing its order: a zero
/// byte becomes `0, 1`, every other byte stands for itself, and `0, 0` ends
/// the string.
pub open spec fn escaped(s: Seq<u8>) -> Seq<u8>
    decreases s.len(),
{
    if s.len() == 0 {
        seq![0u8, 0u8]
    } else if s[0] == 0 {
        seq![0u8, 1u8] + escaped(s.skip(1))
    } else {
        seq![s[0]] + escaped(s.skip(1))
    }
}

/// Puts `acc` in front of the text of a parse result.
pub open spec fn prepend(acc: Seq<u8>, o: Option<(Seq<u8>, Seq<u8>)>) -> Option<
    (Seq<u8>, Seq<u8>),
> {
    match o {
        Some((t, r)) => Some((acc + t, r)),
        None => None,
    }
}

/// Reads one escaped string from the front of `b`: the text and what
/// follows its end mark, or `None` where `b` does not start with one.
pub open spec fn unescaped(b: Seq<u8>) -> Option<(Seq<u8>, Seq<u8>)>
    decreases b.len(),
{
    if b.len() == 0 {
        None
    } else if b[0] != 0 {
        prepend(seq![b[0]], unescaped(b.skip(1)))
    } else if b.len() < 2 {
        None
    } else if b[1] == 0 {
        Some((Seq::empty(), b.skip(2)))
    } else if b[1] == 1 {
        prepend(seq![0u8], unescaped(b.skip(2)))
    } else {
        None
    }
}

/// The bytes under which a key is stored: the escaped owner id, then the
/// vault id as it is.
pub open spec fn key_bytes(k: KeyView) -> Seq<u8> {
    escaped(encode_utf8(k.0)) + encode_utf8(k.1)
}

/// The key that a byte string stands for, if it stands for one.
pub open spec fn parse_key(b: Seq<u8>) -> Option<KeyView> {
    match unescaped(b) {
        Some((u, v)) => if valid_utf8(u) && valid_utf8(v) {
            Some((decode_utf8(u), decode_utf8(v)))
        } else {
            None
        },
        None => None,
    }
}

/// The order of keys: by owner id, then by vault id, each compared as its
/// UTF-8 bytes.
pub open spec fn key_lt(k1: KeyView, k2: KeyView) -> bool {
    bytes_lt(encode_utf8(k1.0), encode_utf8(k2.0)) || (k1.0 == k2.0 && bytes_lt(
        encode_utf8(k1.1),
        encode_utf8(k2.1),
    ))
}

/// Escaping adds the two bytes of the end mark and one byte for each zero
/// byte, so at most one for each byte.
pub proof fn lemma_escaped_len(s: Seq<u8>)
    ensures
        s.len() + 2 <= escaped(s).len() <= 2 * s.len() + 2,
    decreases s.len(),
{
    if s.len() > 0 {
        lemma_escaped_len(s.skip(1));
    }
}

/// Reading back an escaped string gives the string and what followed it.
pub proof fn lemma_unescaped_escaped(s: Seq<u8>, rest: Seq<u8>)
    ensures
        unescaped(escaped(s) + rest) == Some((s, rest)),
    decreases s.len(),
{
    let b = escaped(s) + rest;
    if s.len() == 0 {
        assert(b.skip(2) =~= rest);
        assert(s =~= Seq::empty());
    } else if s[0] == 0 {
        lemma_unescaped_escaped(s.skip(1), rest);
        assert(b.skip(2) =~= escaped(s.skip(1)) + rest);
        assert(b[0] == 0 && b[1] == 1);
        assert(seq![0u8] + s.skip(1) =~= s);
    } else {
        lemma_unescaped_escaped(s.skip(1), rest);
        assert(b.skip(1) =~= escaped(s.skip(1)) + rest);
        assert(b[0] == s[0]);
        assert(seq![s[0]] + s.skip(1) =~= s);
    }
}

/// Whatever can be read from a byte string is what was written there.
pub proof fn lemma_escaped_unescaped(b: Seq<u8>)
    ensures
        match unescaped(b) {
            Some((s, rest)) => b == escaped(s) + rest,
            None => true,
        },
    decreases b.len(),
{
    if b.len() == 0 {
    } else if b[0] != 0 {
        lemma_escaped_unescaped(b.skip(1));
        match unescaped(b.skip(1)) {
            Some((t, rest)) => {
                let s = seq![b[0]] + t;
                assert(s.skip(1) =~= t);
                assert(b =~= seq![b[0]] + b.skip(1));
                assert(b =~= escaped(s) + rest);
            },
            None => {},
        }
    } else if b.len() < 2 {
    } else if b[1] == 0 {
        assert(b =~= escaped(Seq::empty()) + b.skip(2));
    } else if b[1] == 1 {
        lemma_escaped_unescaped(b.skip(2));
        match unescaped(b.skip(2)) {
            Some((t, rest)) => {
                let s = seq![0u8] + t;
                assert(s.skip(1) =~= t);
                assert(b =~= seq![0u8, 1u8] + b.skip(2));
                assert(b =~= escaped(s) + rest);
            },
            None => {},
        }
    }
}

/// The size of an encoded key lies between the bytes of its two ids plus
/// two and that plus the bytes of the owner id once more. So a key whose
/// ids take at most 255 bytes each and hold no zero byte always fits the
/// bound, and one whose ids take more than 510 bytes together never does.
pub proof fn lemma_key_size(k: KeyView)
    ensures
        encode_utf8(k.0).len() + 2 + encode_utf8(k.1).len() <= key_bytes(k).len(),
        key_bytes(k).len() <= 2 * encode_utf8(k.0).len() + 2 + encode_utf8(k.1).len(),
{
    lemma_escaped_len(encode_utf8(k.0));
}

/// Decoding an encoded key gives the key back.
pub proof fn lemma_key_round_trip(k: KeyView)
    ensures
        parse_key(key_bytes(k)) == Some(k),
{
    broadcast use encode_utf8_valid_utf8, encode_utf8_decode_utf8;

    lemma_unescaped_escaped(encode_utf8(k.0), encode_utf8(k.1));
}

/// A byte string that decodes to a key is the encoding of that key.
pub proof fn lemma_parse_key_sound(b: Seq<u8>)
    ensures
        match parse_key(b) {
            Some(k) => key_bytes(k) == b,
            None => true,
        },
{
    broadcast use decode_utf8_encode_utf8;

    lemma_escaped_unescaped(b);
}

/// Two keys with the same encoding are the same key.
pub proof fn lemma_key_bytes_injective(k1: KeyView, k2: KeyView)
    requires
        key_bytes(k1) == key_bytes(k2),
    ensures
        k1 == k2,
{
    lemma_key_round_trip(k1);
    lemma_key_round_trip(k2);
}

/// Escaping keeps the order of byte strings, whatever follows them.
pub proof fn lemma_escaped_keeps_order(a: Seq<u8>, b: Seq<u8>, x: Seq<u8>, y: Seq<u8>)
    requires
        bytes_lt(a, b),
    ensures
        bytes_lt(escaped(a) + x, escaped(b) + y),
    decreases a.len(),
{
    let ea = escaped(a) + x;
    let eb = escaped(b) + y;
    if a.len() == 0 {
        reveal_with_fuel(bytes_lt, 2);
        assert(ea[0] == 0 && ea[1] == 0);
        if b[0] == 0 {
            assert(eb[0] == 0 && eb[1] == 1);
            assert(ea.skip(1)[0] == 0 && eb.skip(1)[0] == 1);
        } else {
            assert(eb[0] == b[0]);
        }
    } else if a[0] != b[0] {
        assert(ea[0] == a[0]);
        assert(eb[0] == b[0]);
    } else {
        lemma_escaped_keeps_order(a.skip(1), b.skip(1), x, y);
        let p = if a[0] == 0 { seq![0u8, 1u8] } else { seq![a[0]] };
        assert(ea =~= p + (escaped(a.skip(1)) + x));
        assert(eb =~= p + (escaped(b.skip(1)) + y));
        lemma_bytes_lt_common_prefix(p, escaped(a.skip(1)) + x, escaped(b.skip(1)) + y);
    }
}

/// The byte order of encoded keys is the order of the keys: a key with a
/// smaller owner id, or with the same owner id and a smaller vault id, has
/// the smaller encoding.
pub proof fn lemma_encoding_keeps_key_order(k1: KeyView, k2: KeyView)
    requires
        key_lt(k1, k2),
    ensures
        bytes_lt(key_bytes(k1), key_bytes(k2)),
{
    if bytes_lt(encode_utf8(k1.0), encode_utf8(k2.0)) {
        lemma_escaped_keeps_order(
            encode_utf8(k1.0),
            encode_utf8(k2.0),
            encode_utf8(k1.1),
            encode_utf8(k2.1),
        );
    } else {
        lemma_bytes_lt_common_prefix(
            escaped(encode_utf8(k1.0)),
            encode_utf8(k1.1),
            encode_utf8(k2.1),
        );
    }
}

/// Of two different keys one is below the other.
pub proof fn lemma_key_order_total(k1: KeyView, k2: KeyView)
    requires
        k1 != k2,
    ensures
        key_lt(k1, k2) || key_lt(k2, k1),
{
    broadcast use encode_utf8_decode_utf8;

    if k1.0 != k2.0 {
        assert(decode_utf8(encode_utf8(k1.0)) == k1.0);
        assert(decode_utf8(encode_utf8(k2.0)) == k2.0);
        lemma_bytes_lt_total(encode_utf8(k1.0), encode_utf8(k2.0));
    } else {
        assert(k1.1 != k2.1);
        assert(decode_utf8(encode_utf8(k1.1)) == k1.1);
        assert(decode_utf8(encode_utf8(k2.1)) == k2.1);
        lemma_bytes_lt_total(encode_utf8(k1.1), encode_utf8(k2.1));
    }
}

/// Encoded keys compare, byte by byte, exactly as the keys do.
pub proof fn lemma_key_order_is_byte_order(k1: KeyView, k2: KeyView)
    ensures
        key_lt(k1, k2) == bytes_lt(key_bytes(k1), key_bytes(k2)),
{
    if key_lt(k1, k2) {
        lemma_encoding_keeps_key_order(k1, k2);
    } else if bytes_lt(key_bytes(k1), key_bytes(k2)) {
        if k1 == k2 {
            lemma_bytes_lt_irreflexive(key_bytes(k1));
        } else {
            lemma_key_order_total(k1, k2);
            lemma_encoding_keeps_key_order(k2, k1);
            lemma_bytes_lt_asymmetric(key_bytes(k1), key_bytes(k2));
        }
    }
}

/// Among the keys of one owner, encodings compare as the vault ids do.
pub proof fn lemma_same_owner_order(u: Seq<char>, v1: Seq<char>, v2: Seq<char>)
    ensures
        bytes_lt(key_bytes((u, v1)), key_bytes((u, v2))) == bytes_lt(
            encode_utf8(v1),
            encode_utf8(v2),
        ),
{
    lemma_bytes_lt_common_prefix(escaped(encode_utf8(u)), encode_utf8(v1), encode_utf8(v2));
}

/// `String::from_utf8` of std: gives the text that the bytes are the UTF-8
/// form of, and nothing where they are not valid UTF-8.
#[verifier::external_body]
fn text_from_utf8(bytes: Vec<u8>) -> (r: Option<String>)
    ensures
        r is Some <==> valid_utf8(bytes@),
        r is Some ==> r.unwrap()@ == decode_utf8(bytes@),
{
    String::from_utf8(bytes).ok()
}

/// Appends the escaped form of `text` to `out`.
fn put_escaped(out: &mut Vec<u8>, text: &[u8])
    ensures
        final(out)@ == old(out)@ + escaped(text@),
{
    let mut i: usize = 0;
    assert(text@.skip(0) =~= text@);
    while i < text.len()
        invariant
            i <= text.len(),
            out@ + escaped(text@.skip(i as int)) == old(out)@ + escaped(text@),
        decreases text.len() - i,
    {
        let b = text[i];
        proof {
            let s = text@.skip(i as int);
            assert(s[0] == b);
            assert(s.skip(1) =~= text@.skip(i + 1));
        }
        let ghost before = out@;
        if b == 0 {
            out.push(0u8);
            out.push(1u8);
            assert(out@ + escaped(text@.skip(i + 1)) =~= before + (seq![0u8, 1u8] + escaped(
                text@.skip(i + 1),
            )));
        } else {
            out.push(b);
            assert(out@ + escaped(text@.skip(i + 1)) =~= before + (seq![b] + escaped(
                text@.skip(i + 1),
            )));
        }
        i += 1;
    }
    let ghost before = out@;
    out.push(0u8);
    out.push(0u8);
    proof {
        assert(text@.skip(i as int).len() == 0);
        assert(out@ =~= before + seq![0u8, 0u8]);
    }
}

/// Appends `text` to `out` as it is.
fn put_raw(out: &mut Vec<u8>, text: &[u8])
    ensures
        final(out)@ == old(out)@ + text@,
{
    let mut i: usize = 0;
    while i < text.len()
        invariant
            i <= text.len(),
            out@ == old(out)@ + text@.take(i as int),
        decreases text.len() - i,
    {
        let ghost before = out@;
        out.push(text[i]);
        assert(out@ =~= old(out)@ + text@.take(i + 1));
        i += 1;
    }
    assert(text@.take(i as int) =~= text@);
}

/// The bytes of `bytes` from position `start` on.
fn tail_from(bytes: &Vec<u8>, start: usize) -> (r: Vec<u8>)
    requires
        start <= bytes.len(),
    ensures
        r@ == bytes@.skip(start as int),
{
    let mut r: Vec<u8> = Vec::new();
    let mut i: usize = start;
    while i < bytes.len()
        invariant
            start <= i <= bytes.len(),
            r@ == bytes@.subrange(start as int, i as int),
        decreases bytes.len() - i,
    {
        r.push(bytes[i]);
        assert(r@ =~= bytes@.subrange(start as int, i + 1));
        i += 1;
    }
    assert(bytes@.subrange(start as int, i as int) =~= bytes@.skip(start as int));
    r
}

/// Reads one escaped string from the front of `bytes`: the text and the
/// position after its end mark.
fn take_escaped(bytes: &Vec<u8>) -> (r: Option<(Vec<u8>, usize)>)
    ensures
        match unescaped(bytes@) {
            Some((t, rest)) => r is Some && r.unwrap().0@ == t && r.unwrap().1 <= bytes.len()
                && bytes@.skip(r.unwrap().1 as int) == rest,
            None => r is None,
        },
{
    let mut acc: Vec<u8> = Vec::new();
    let mut i: usize = 0;
    assert(bytes@.skip(0) =~= bytes@);
    assert(acc@ + Seq::<u8>::empty() =~= Seq::<u8>::empty());
    assert(prepend(acc@, unescaped(bytes@)) == unescaped(bytes@)) by {
        match unescaped(bytes@) {
            Some((t, r)) => {
                assert(acc@ + t =~= t);
            },
            None => {},
        }
    }
    while i < bytes.len()
        invariant
            i <= bytes.len(),
            unescaped(bytes@) == prepend(acc@, unescaped(bytes@.skip(i as int))),
        decreases bytes.len() - i,
    {
        let b = bytes[i];
        let ghost s = bytes@.skip(i as int);
        let ghost before = acc@;
        proof {
            assert(s[0] == b);
            assert(s.skip(1) =~= bytes@.skip(i + 1));
        }
        if b != 0 {
            acc.push(b);
            proof {
                match unescaped(s.skip(1)) {
                    Some((t, r)) => {
                        assert(before + (seq![b] + t) =~= acc@ + t);
                    },
                    None => {},
                }
            }
            i += 1;
        } else {
            if i + 1 >= bytes.len() {
                return None;
            }
            let c = bytes[i + 1];
            proof {
                assert(s[1] == c);
                assert(s.skip(2) =~= bytes@.skip(i + 2));
            }
            if c == 0 {
                assert(before + Seq::<u8>::empty() =~= before);
                return Some((acc, i + 2));
            } else if c == 1 {
                acc.push(0u8);
                proof {
                    match unescaped(s.skip(2)) {
                        Some((t, r)) => {
                            assert(before + (seq![0u8] + t) =~= acc@ + t);
                        },
                        None => {},
                    }
                }
                i += 2;
            } else {
                return None;
            }
        }
    }
    None
}

/// The encoding of the key made of `user_id` and `vault_id`. Fails with
/// `CapacityExceeded`, and only then, where the encoding would be longer
/// than `KEY_MAX_SIZE` bytes.
pub fn encode_key(user_id: &String, vault_id: &String) -> (r: Result<Vec<u8>, StoreError>)
    ensures
        key_bytes((user_id@, vault_id@)).len() <= KEY_MAX_SIZE ==> r is Ok && r.unwrap()@
            == key_bytes((user_id@, vault_id@)),
        key_bytes((user_id@, vault_id@)).len() > KEY_MAX_SIZE ==> r == Err::<Vec<u8>, StoreError>(
            StoreError::CapacityExceeded,
        ),
{
    let mut out: Vec<u8> = Vec::new();
    put_escaped(&mut out, user_id.as_str().as_bytes());
    put_raw(&mut out, vault_id.as_str().as_bytes());
    assert(out@ =~= key_bytes((user_id@, vault_id@)));
    if out.len() > KEY_MAX_SIZE {
        Err(StoreError::CapacityExceeded)
    } else {
        Ok(out)
    }
}

impl VaultKey {
    /// The declared size of encoded keys: at most `KEY_MAX_SIZE` bytes, of
    /// varying length.
    pub fn bound() -> (b: SizeBound)
        ensures
            b == (SizeBound::Bounded { max_size: 512, is_fixed_size: false }),
            b->max_size == KEY_MAX_SIZE,
    {
        SizeBound::Bounded { max_size: 512, is_fixed_size: false }
    }

    /// Encodes the key: `Ok` with `key_bytes` of it where that fits the
    /// codec's bound, `CapacityExceeded` where it does not.
    pub fn to_bytes(&self) -> (r: Result<Vec<u8>, StoreError>)
        ensures
            key_bytes(self@).len() <= KEY_MAX_SIZE ==> r is Ok && r.unwrap()@ == key_bytes(self@),
            key_bytes(self@).len() > KEY_MAX_SIZE ==> r == Err::<Vec<u8>, StoreError>(
                StoreError::CapacityExceeded,
            ),
    {
        encode_key(&self.user_id, &self.vault_id)
    }

    /// Encodes the key and gives it up; the result is that of `to_bytes`.
    pub fn into_bytes(self) -> (r: Result<Vec<u8>, StoreError>)
        ensures
            key_bytes(self@).len() <= KEY_MAX_SIZE ==> r is Ok && r.unwrap()@ == key_bytes(self@),
            key_bytes(self@).len() > KEY_MAX_SIZE ==> r == Err::<Vec<u8>, StoreError>(
                StoreError::CapacityExceeded,
            ),
    {
        encode_key(&self.user_id, &self.vault_id)
    }

    /// Decodes a key. Succeeds exactly on the byte strings that are the
    /// encoding of a key, and gives that key; otherwise `DecodeFailure`.
    pub fn from_bytes(bytes: &Vec<u8>) -> (r: Result<VaultKey, StoreError>)
        ensures
            match parse_key(bytes@) {
                Some(k) => r is Ok && r.unwrap()@ == k,
                None => r == Err::<VaultKey, StoreError>(StoreError::DecodeFailure),
            },
    {
        match take_escaped(bytes) {
            None => Err(StoreError::DecodeFailure),
            Some((user_bytes, pos)) => {
                let vault_bytes = tail_from(bytes, pos);
                match text_from_utf8(user_bytes) {
                    None => Err(StoreError::DecodeFailure),
                    Some(user_id) => match text_from_utf8(vault_bytes) {
                        None => Err(StoreError::DecodeFailure),
                        Some(vault_id) => Ok(VaultKey { user_id, vault_id }),
                    },
                }
            },
        }
    }
}

} // verus!
