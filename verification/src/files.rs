//! The file access service's decision logic: directory listings sorted
//! case-insensitively by name, and the encoding decisions of read and
//! write built atop the binary-text codec.

use vstd::prelude::*;
use vstd::string::StrSliceExecFns;
use vstd::string::StringSliceAdditionalSpecFns;

use crate::codec::b64_decode;
use crate::codec::b64_encode;
use crate::codec::decode_base64;
use crate::codec::encode_base64;
use crate::errors::GatewayError;
use crate::strutil::bytes_to_utf8_string;
use crate::strutil::equal_mod_case;
use crate::strutil::eq_ignore_case;
use crate::strutil::lower_char;
use vstd::multiset::Multiset;
use vstd::string::StringExecFns;
use vstd::utf8::valid_utf8;

verus! {

/// The kind of a directory entry.
#[derive(PartialEq, Eq, Structural, Clone, Copy, Debug)]
pub enum EntryKind {
    File,
    Directory,
}

/// One immutable directory entry: its name, its sandbox-relative path,
/// its kind, its size in bytes (zero for directories) and its last
/// modification time in epoch milliseconds, when known.
pub struct FileEntry {
    pub name: String,
    pub path: String,
    pub kind: EntryKind,
    pub size: u64,
    pub modified_at: Option<u64>,
}

/// Builds a directory entry; directories report size zero.
pub fn make_entry(
    name: String,
    path: String,
    is_dir: bool,
    size: u64,
    modified_at: Option<u64>,
) -> (r: FileEntry)
    ensures
        r.name == name,
        r.path == path,
        r.kind == (if is_dir {
            EntryKind::Directory
        } else {
            EntryKind::File
        }),
        r.size == (if is_dir {
            0u64
        } else {
            size
        }),
        r.modified_at == modified_at,
{
    FileEntry {
        name,
        path,
        kind: if is_dir {
            EntryKind::Directory
        } else {
            EntryKind::File
        },
        size: if is_dir {
            0
        } else {
            size
        },
        modified_at,
    }
}

/// Case-insensitive lexicographic order on names: characters are
/// compared by their ASCII-lowercased code points.
pub open spec fn lex_le(a: Seq<char>, b: Seq<char>) -> bool
    decreases a.len(),
{
    if a.len() == 0 {
        true
    } else if b.len() == 0 {
        false
    } else if lower_char(a[0]) == lower_char(b[0]) {
        lex_le(a.skip(1), b.skip(1))
    } else {
        (lower_char(a[0]) as u32) < (lower_char(b[0]) as u32)
    }
}

/// The order is reflexive.
proof fn lemma_lex_refl(a: Seq<char>)
    ensures
        lex_le(a, a),
    decreases a.len(),
{
    if a.len() > 0 {
        lemma_lex_refl(a.skip(1));
    }
}

/// The order is total.
proof fn lemma_lex_total(a: Seq<char>, b: Seq<char>)
    ensures
        lex_le(a, b) || lex_le(b, a),
    decreases a.len(),
{
    if a.len() == 0 || b.len() == 0 {
    } else if lower_char(a[0]) == lower_char(b[0]) {
        lemma_lex_total(a.skip(1), b.skip(1));
    }
}

/// The order is transitive.
proof fn lemma_lex_trans(a: Seq<char>, b: Seq<char>, c: Seq<char>)
    requires
        lex_le(a, b),
        lex_le(b, c),
    ensures
        lex_le(a, c),
    decreases a.len(),
{
    if a.len() == 0 || b.len() == 0 || c.len() == 0 {
    } else if lower_char(a[0]) == lower_char(b[0]) && lower_char(b[0]) == lower_char(c[0]) {
        lemma_lex_trans(a.skip(1), b.skip(1), c.skip(1));
    }
}

/// Compares two names in case-insensitive lexicographic order.
pub fn name_le(a: &str, b: &str) -> (r: bool)
    ensures
        r == lex_le(a@, b@),
{
    let a_len = a.unicode_len();
    let b_len = b.unicode_len();
    let mut i: usize = 0;
    proof {
        assert(a@.skip(0) =~= a@);
        assert(b@.skip(0) =~= b@);
    }
    while i < a_len && i < b_len
        invariant
            a_len == a@.len(),
            b_len == b@.len(),
            i <= a_len,
            i <= b_len,
            lex_le(a@, b@) == lex_le(a@.skip(i as int), b@.skip(i as int)),
        decreases a_len - i,
    {
        proof {
            assert(a@.skip(i as int)[0] == a@[i as int]);
            assert(b@.skip(i as int)[0] == b@[i as int]);
            assert(a@.skip(i as int).skip(1) =~= a@.skip(i + 1));
            assert(b@.skip(i as int).skip(1) =~= b@.skip(i + 1));
        }
        let ca = a.get_char(i);
        let cb = b.get_char(i);
        let la = crate::strutil::lower_code(ca);
        let lb = crate::strutil::lower_code(cb);
        if la != lb {
            return la < lb;
        }
        i = i + 1;
    }
    proof {
        if i == a_len {
            assert(a@.skip(i as int).len() == 0);
        } else {
            assert(b@.skip(i as int).len() == 0);
            assert(a@.skip(i as int).len() > 0);
        }
    }
    i == a_len
}

/// Entries in case-insensitive ascending order of name.
pub open spec fn entries_sorted(s: Seq<FileEntry>) -> bool {
    forall|i: int, j: int| 0 <= i < j < s.len() ==> lex_le(#[trigger] s[i].name@, #[trigger] s[j].name@)
}

/// Sorts directory entries case-insensitively by name, ascending. The
/// result holds exactly the given entries.
pub fn sort_entries(entries: Vec<FileEntry>) -> (r: Vec<FileEntry>)
    ensures
        entries_sorted(r@),
        r@.to_multiset() == entries@.to_multiset(),
{
    broadcast use vstd::seq_lib::group_to_multiset_ensures;

    let ghost orig = entries@;
    let mut rest = entries;
    let mut out: Vec<FileEntry> = Vec::new();
    proof {
        assert(out@.to_multiset() =~= Multiset::<FileEntry>::empty());
        assert(out@.to_multiset().add(rest@.to_multiset()) =~= rest@.to_multiset());
    }
    while rest.len() > 0
        invariant
            entries_sorted(out@),
            out@.to_multiset().add(rest@.to_multiset()) == orig.to_multiset(),
            forall|i: int, j: int|
                0 <= i < out@.len() && 0 <= j < rest@.len() ==> lex_le(
                    #[trigger] out@[i].name@,
                    #[trigger] rest@[j].name@,
                ),
        decreases rest@.len(),
    {
        let n = rest.len();
        let mut best: usize = 0;
        let mut j: usize = 1;
        proof {
            lemma_lex_refl(rest@[0].name@);
        }
        while j < n
            invariant
                n == rest@.len(),
                best < j <= n,
                forall|t: int| 0 <= t < j ==> lex_le(rest@[best as int].name@, #[trigger] rest@[t].name@),
            decreases n - j,
        {
            if !name_le(rest[best].name.as_str(), rest[j].name.as_str()) {
                proof {
                    lemma_lex_total(rest@[best as int].name@, rest@[j as int].name@);
                    assert forall|t: int| 0 <= t < j + 1 implies lex_le(
                        rest@[j as int].name@,
                        #[trigger] rest@[t].name@,
                    ) by {
                        if t < j {
                            lemma_lex_trans(
                                rest@[j as int].name@,
                                rest@[best as int].name@,
                                rest@[t].name@,
                            );
                        } else {
                            lemma_lex_refl(rest@[j as int].name@);
                        }
                    }
                }
                best = j;
            }
            j = j + 1;
        }
        let ghost pre_rest = rest@;
        let ghost pre_out = out@;
        let e = rest.remove(best);
        out.push(e);
        proof {
            assert(e == pre_rest[best as int]);
            assert(rest@ == pre_rest.remove(best as int));
            pre_rest.to_multiset_ensures();
            pre_out.to_multiset_ensures();
            assert(pre_rest.remove(best as int).to_multiset() =~= pre_rest.to_multiset().remove(
                e,
            ));
            assert(out@ == pre_out.push(e));
            assert(out@.to_multiset() =~= pre_out.to_multiset().insert(e));
            assert(pre_rest.to_multiset().count(e) > 0);
            assert(out@.to_multiset().add(rest@.to_multiset()) =~= pre_out.to_multiset().add(
                pre_rest.to_multiset(),
            ));
            assert forall|i: int, j2: int|
                0 <= i < out@.len() && 0 <= j2 < rest@.len() implies lex_le(
                #[trigger] out@[i].name@,
                #[trigger] rest@[j2].name@,
            ) by {
                let source = if j2 < best { j2 } else { j2 + 1 };
                assert(rest@[j2] == pre_rest[source]);
                if i < pre_out.len() {
                    assert(out@[i] == pre_out[i]);
                    assert(lex_le(pre_out[i].name@, pre_rest[source].name@));
                } else {
                    assert(out@[i] == e);
                    assert(lex_le(e.name@, pre_rest[source].name@));
                }
            }
            assert(entries_sorted(out@)) by {
                assert forall|i: int, j2: int| 0 <= i < j2 < out@.len() implies lex_le(
                    #[trigger] out@[i].name@,
                    #[trigger] out@[j2].name@,
                ) by {
                    if j2 == out@.len() - 1 {
                        assert(out@[i] == pre_out[i]);
                        assert(out@[j2] == e);
                        assert(pre_rest[best as int] == e);
                        assert(lex_le(pre_out[i].name@, e.name@));
                    } else {
                        assert(out@[i] == pre_out[i] && out@[j2] == pre_out[j2]);
                    }
                }
            }
        }
    }
    proof {
        assert(rest@.to_multiset() =~= Multiset::<FileEntry>::empty());
        assert(out@.to_multiset().add(Multiset::<FileEntry>::empty()) =~= out@.to_multiset());
    }
    out
}

/// Whether the caller asked for the binary-text encoding; an absent
/// preference means text.
pub open spec fn wants_base64(encoding: Option<&str>) -> bool {
    match encoding {
        Some(e) => equal_mod_case(e@, "base64"@),
        None => false,
    }
}

/// The content of a read, rendered for transfer, with the name of the
/// encoding actually used.
pub fn render_file_content(data: Vec<u8>, encoding: Option<&str>) -> (r: Result<
    (String, String),
    GatewayError,
>)
    ensures
        match r {
            Ok((enc, content)) => {
                if wants_base64(encoding) {
                    &&& enc@ == "base64"@
                    &&& content@ == b64_encode(data@).map_values(|b: u8| b as char)
                } else {
                    &&& enc@ == "utf8"@
                    &&& valid_utf8(data@)
                    &&& vstd::utf8::encode_utf8(content@) == data@
                }
            },
            Err(e) => !wants_base64(encoding) && !valid_utf8(data@) && e is EncodingError,
        },
{
    let use_base64 = match encoding {
        Some(e) => eq_ignore_case(e, "base64"),
        None => false,
    };
    if use_base64 {
        let content = encode_base64(data.as_slice());
        Ok((String::from_str("base64"), content))
    } else {
        match bytes_to_utf8_string(data) {
            Ok(content) => Ok((String::from_str("utf8"), content)),
            Err(e) => Err(e),
        }
    }
}

/// The decision and payload of a write: what error to report, or the
/// exact bytes to store.
pub open spec fn write_decision(
    content: Seq<u8>,
    base64: bool,
    existed: bool,
    overwrite: Option<bool>,
) -> Result<Seq<u8>, GatewayError> {
    if existed && !(match overwrite {
        Some(o) => o,
        None => true,
    }) {
        Err(GatewayError::AlreadyExists)
    } else if base64 {
        match b64_decode(content) {
            Some(bytes) => Ok(bytes),
            None => Err(GatewayError::EncodingError),
        }
    } else {
        Ok(content)
    }
}

/// Validates a write request and produces the bytes to store: an
/// existing target with `overwrite=false` fails before anything is
/// decoded or modified; otherwise the content is decoded under the
/// requested encoding.
pub fn prepare_write(
    content: &str,
    encoding: Option<&str>,
    existed: bool,
    overwrite: Option<bool>,
) -> (r: Result<Vec<u8>, GatewayError>)
    ensures
        match r {
            Ok(bytes) => write_decision(
                content.spec_bytes(),
                wants_base64(encoding),
                existed,
                overwrite,
            ) == Ok::<Seq<u8>, GatewayError>(bytes@),
            Err(e) => write_decision(
                content.spec_bytes(),
                wants_base64(encoding),
                existed,
                overwrite,
            ) == Err::<Seq<u8>, GatewayError>(e),
        },
{
    let allow = match overwrite {
        Some(o) => o,
        None => true,
    };
    if existed && !allow {
        return Err(GatewayError::AlreadyExists);
    }
    let use_base64 = match encoding {
        Some(e) => eq_ignore_case(e, "base64"),
        None => false,
    };
    if use_base64 {
        match decode_base64(content) {
            Ok(bytes) => Ok(bytes),
            Err(_) => Err(GatewayError::EncodingError),
        }
    } else {
        Ok(content.as_bytes_vec())
    }
}

/// The outcome of a write: the sandbox-relative path, the byte count
/// stored, and whether the target was newly created.
pub struct WriteResponse {
    pub path: String,
    pub bytes: usize,
    pub created: bool,
}

/// Assembles a write response: a target that already existed was not
/// newly created.
pub fn write_response(path: String, bytes: usize, existed: bool) -> (r: WriteResponse)
    ensures
        r.path == path,
        r.bytes == bytes,
        r.created == !existed,
{
    WriteResponse { path, bytes, created: !existed }
}

} // verus!
