//! The checkpoint document: a JSON-shaped text holding the accumulated pages
//! as one unit, written whole on every checkpoint and read back on resume.
//!
//! The encoder produces one canonical form: an array of page objects, each
//! with its `files` array and, when present, its continuation token; numeric
//! byte counts travel as strings of decimal digits, as the remote API
//! transmits them, and are decoded back from string form. The parser accepts
//! exactly that form, with one widening: a `null` parents field decodes to an
//! empty sequence, not an error.

use vstd::prelude::*;
use crate::format::{dec_digits, push_char, push_decimal};
use crate::record::{FileRecord, FileRecordView, Page, PageView};

verus! {

/// The body of an encoded string: every `"` or `\` preceded by a backslash,
/// every other character as it is.
pub open spec fn esc(s: Seq<char>) -> Seq<char>
    decreases s.len(),
{
    if s.len() == 0 {
        Seq::empty()
    } else {
        esc(s.drop_last()) + if s.last() == '"' || s.last() == '\\' {
            seq!['\\', s.last()]
        } else {
            seq![s.last()]
        }
    }
}

/// An encoded string: the escaped body between double quotes.
pub open spec fn enc_string(s: Seq<char>) -> Seq<char> {
    seq!['"'] + esc(s) + seq!['"']
}

/// An encoded byte count: its decimal digits between double quotes, the
/// string form the remote API uses for such counts.
pub open spec fn enc_num(n: nat) -> Seq<char> {
    seq!['"'] + dec_digits(n) + seq!['"']
}

pub open spec fn key_id() -> Seq<char> {
    seq!['"', 'i', 'd', '"', ':']
}

pub open spec fn key_mime_type() -> Seq<char> {
    seq!['"', 'm', 'i', 'm', 'e', 'T', 'y', 'p', 'e', '"', ':']
}

pub open spec fn key_parents() -> Seq<char> {
    seq!['"', 'p', 'a', 'r', 'e', 'n', 't', 's', '"', ':']
}

pub open spec fn key_name() -> Seq<char> {
    seq!['"', 'n', 'a', 'm', 'e', '"', ':']
}

pub open spec fn key_quota() -> Seq<char> {
    seq!['"', 'q', 'u', 'o', 't', 'a', 'B', 'y', 't', 'e', 's', 'U', 's', 'e', 'd', '"', ':']
}

pub open spec fn key_size() -> Seq<char> {
    seq!['"', 's', 'i', 'z', 'e', '"', ':']
}

pub open spec fn key_sha() -> Seq<char> {
    seq!['"', 's', 'h', 'a', '2', '5', '6', 'C', 'h', 'e', 'c', 'k', 's', 'u', 'm', '"', ':']
}

pub open spec fn key_files() -> Seq<char> {
    seq!['"', 'f', 'i', 'l', 'e', 's', '"', ':']
}

pub open spec fn key_token() -> Seq<char> {
    seq!['"', 'n', 'e', 'x', 't', 'P', 'a', 'g', 'e', 'T', 'o', 'k', 'e', 'n', '"', ':']
}

/// The comma-joined encoded strings of a parents list.
pub open spec fn enc_strlist(ps: Seq<Seq<char>>) -> Seq<char>
    decreases ps.len(),
{
    if ps.len() == 0 {
        Seq::empty()
    } else {
        enc_strlist(ps.drop_last()) + if ps.len() > 1 {
            seq![',']
        } else {
            Seq::empty()
        } + enc_string(ps.last())
    }
}

pub open spec fn part_id(r: FileRecordView) -> Seq<char> {
    seq!['{'] + key_id() + enc_string(r.id)
}

pub open spec fn part_mime(r: FileRecordView) -> Seq<char> {
    seq![','] + key_mime_type() + enc_string(r.mime_type)
}

pub open spec fn part_parents(r: FileRecordView) -> Seq<char> {
    seq![','] + key_parents() + seq!['['] + enc_strlist(r.parents) + seq![']']
}

pub open spec fn part_name(r: FileRecordView) -> Seq<char> {
    seq![','] + key_name() + enc_string(r.name)
}

pub open spec fn part_quota(r: FileRecordView) -> Seq<char> {
    match r.quota_bytes_used {
        Some(n) => seq![','] + key_quota() + enc_num(n as nat),
        None => Seq::empty(),
    }
}

pub open spec fn part_size(r: FileRecordView) -> Seq<char> {
    match r.size {
        Some(n) => seq![','] + key_size() + enc_num(n as nat),
        None => Seq::empty(),
    }
}

pub open spec fn part_sha(r: FileRecordView) -> Seq<char> {
    match r.sha256_checksum {
        Some(s) => seq![','] + key_sha() + enc_string(s),
        None => Seq::empty(),
    }
}

/// One encoded record: its fields in a fixed order, the optional fields
/// present exactly when the record carries them.
pub open spec fn enc_record(r: FileRecordView) -> Seq<char> {
    part_id(r) + part_mime(r) + part_parents(r) + part_name(r) + part_quota(r) + part_size(r)
        + part_sha(r) + seq!['}']
}

/// The comma-joined encoded records of one page.
pub open spec fn enc_reclist(rs: Seq<FileRecordView>) -> Seq<char>
    decreases rs.len(),
{
    if rs.len() == 0 {
        Seq::empty()
    } else {
        enc_reclist(rs.drop_last()) + if rs.len() > 1 {
            seq![',']
        } else {
            Seq::empty()
        } + enc_record(rs.last())
    }
}

pub open spec fn page_head(p: PageView) -> Seq<char> {
    seq!['{'] + key_files() + seq!['['] + enc_reclist(p.files) + seq![']']
}

pub open spec fn page_token_part(p: PageView) -> Seq<char> {
    match p.next_page_token {
        Some(t) => seq![','] + key_token() + enc_string(t),
        None => Seq::empty(),
    }
}

/// One encoded page: its records, then the continuation token when one is
/// present.
pub open spec fn enc_page(p: PageView) -> Seq<char> {
    page_head(p) + page_token_part(p) + seq!['}']
}

/// The comma-joined encoded pages of the whole state.
pub open spec fn enc_pagelist(ps: Seq<PageView>) -> Seq<char>
    decreases ps.len(),
{
    if ps.len() == 0 {
        Seq::empty()
    } else {
        enc_pagelist(ps.drop_last()) + if ps.len() > 1 {
            seq![',']
        } else {
            Seq::empty()
        } + enc_page(ps.last())
    }
}

/// The whole encoded checkpoint document.
pub open spec fn enc_state(ps: Seq<PageView>) -> Seq<char> {
    seq!['['] + enc_pagelist(ps) + seq![']']
}

/// True when `lit` occurs in `s` starting at position `i`.
pub open spec fn lit_at(s: Seq<char>, i: int, lit: Seq<char>) -> bool {
    0 <= i && i + lit.len() <= s.len() && s.subrange(i, i + lit.len()) == lit
}

/// The value of a decimal digit character, or -1 for any other character.
pub open spec fn digit_val(c: char) -> int {
    if c == '0' {
        0
    } else if c == '1' {
        1
    } else if c == '2' {
        2
    } else if c == '3' {
        3
    } else if c == '4' {
        4
    } else if c == '5' {
        5
    } else if c == '6' {
        6
    } else if c == '7' {
        7
    } else if c == '8' {
        8
    } else if c == '9' {
        9
    } else {
        -1
    }
}

/// Reads the body of an encoded string from position `i` up to its closing
/// quote: a backslash must be followed by `"` or `\` and contributes that
/// character; any other character contributes itself.
pub open spec fn dec_str_body(s: Seq<char>, i: int) -> Option<(Seq<char>, int)>
    decreases s.len() - i,
{
    if i < 0 || i >= s.len() {
        None
    } else if s[i] == '"' {
        Some((Seq::empty(), i + 1))
    } else if s[i] == '\\' {
        if i + 1 < s.len() && (s[i + 1] == '"' || s[i + 1] == '\\') {
            match dec_str_body(s, i + 2) {
                None => None,
                Some(rest) => Some((seq![s[i + 1]] + rest.0, rest.1)),
            }
        } else {
            None
        }
    } else {
        match dec_str_body(s, i + 1) {
            None => None,
            Some(rest) => Some((seq![s[i]] + rest.0, rest.1)),
        }
    }
}

/// Reads one encoded string (both quotes included) from position `i`.
pub open spec fn dec_string(s: Seq<char>, i: int) -> Option<(Seq<char>, int)> {
    if 0 <= i < s.len() && s[i] == '"' {
        dec_str_body(s, i + 1)
    } else {
        None
    }
}

proof fn lemma_dec_str_body_advances(s: Seq<char>, i: int)
    ensures
        dec_str_body(s, i) matches Some(r) ==> i < r.1 <= s.len(),
    decreases s.len() - i,
{
    if 0 <= i < s.len() {
        if s[i] == '"' {
        } else if s[i] == '\\' {
            if i + 1 < s.len() && (s[i + 1] == '"' || s[i + 1] == '\\') {
                lemma_dec_str_body_advances(s, i + 2);
            }
        } else {
            lemma_dec_str_body_advances(s, i + 1);
        }
    }
}

proof fn lemma_dec_string_advances(s: Seq<char>, i: int)
    ensures
        dec_string(s, i) matches Some(r) ==> i + 2 <= r.1 <= s.len(),
{
    lemma_dec_str_body_advances(s, i + 1);
}

/// Reads decimal digits from position `i` up to a closing quote,
/// accumulating their value onto `acc`; a value that leaves 64 bits is
/// rejected as soon as it does.
pub open spec fn dec_num_body(s: Seq<char>, i: int, acc: nat) -> Option<(nat, int)>
    decreases s.len() - i,
{
    if i < 0 || i >= s.len() {
        None
    } else if s[i] == '"' {
        Some((acc, i + 1))
    } else if digit_val(s[i]) >= 0 {
        let acc2 = acc * 10 + digit_val(s[i]);
        if acc2 > u64::MAX as nat {
            None
        } else {
            dec_num_body(s, i + 1, acc2 as nat)
        }
    } else {
        None
    }
}

/// Reads one encoded byte count, a nonempty run of decimal digits between
/// quotes whose value fits in 64 bits, from position `i`.
pub open spec fn dec_numstr(s: Seq<char>, i: int) -> Option<(nat, int)> {
    if 0 <= i && i + 1 < s.len() && s[i] == '"' && digit_val(s[i + 1]) >= 0 {
        dec_num_body(s, i + 1, 0)
    } else {
        None
    }
}

proof fn lemma_dec_num_body_advances(s: Seq<char>, i: int, acc: nat)
    ensures
        dec_num_body(s, i, acc) matches Some(r) ==> i < r.1 <= s.len() && r.0 <= u64::MAX as nat
            || acc > u64::MAX as nat,
    decreases s.len() - i,
{
    if 0 <= i < s.len() {
        if s[i] == '"' {
        } else if digit_val(s[i]) >= 0 {
            let acc2 = acc * 10 + digit_val(s[i]);
            if acc2 <= u64::MAX as nat {
                lemma_dec_num_body_advances(s, i + 1, acc2 as nat);
            }
        }
    }
}

proof fn lemma_dec_numstr_advances(s: Seq<char>, i: int)
    ensures
        dec_numstr(s, i) matches Some(r) ==> i + 2 <= r.1 <= s.len() && r.0 <= u64::MAX as nat,
{
    lemma_dec_num_body_advances(s, i + 1, 0);
}

/// Reads the items of a nonempty encoded string array from position `i` (the
/// position right after the opening bracket) through its closing bracket.
pub open spec fn dec_strlist(s: Seq<char>, i: int) -> Option<(Seq<Seq<char>>, int)>
    decreases s.len() - i,
    via dec_strlist_decreases
{
    match dec_string(s, i) {
        None => None,
        Some(head) => if head.1 < s.len() && s[head.1] == ',' {
            match dec_strlist(s, head.1 + 1) {
                None => None,
                Some(rest) => Some((seq![head.0] + rest.0, rest.1)),
            }
        } else if head.1 < s.len() && s[head.1] == ']' {
            Some((seq![head.0], head.1 + 1))
        } else {
            None
        },
    }
}

#[via_fn]
proof fn dec_strlist_decreases(s: Seq<char>, i: int) {
    lemma_dec_string_advances(s, i);
}

proof fn lemma_dec_strlist_advances(s: Seq<char>, i: int)
    ensures
        dec_strlist(s, i) matches Some(r) ==> i < r.1 <= s.len(),
    decreases s.len() - i,
{
    lemma_dec_string_advances(s, i);
    match dec_string(s, i) {
        None => {}
        Some(head) => {
            if head.1 < s.len() && s[head.1] == ',' {
                lemma_dec_strlist_advances(s, head.1 + 1);
            }
        }
    }
}

/// Reads a parents field from position `i`: `null` decodes to an empty
/// sequence, otherwise an encoded string array.
pub open spec fn dec_parents(s: Seq<char>, i: int) -> Option<(Seq<Seq<char>>, int)> {
    if lit_at(s, i, seq!['n', 'u', 'l', 'l']) {
        Some((Seq::empty(), i + 4))
    } else if 0 <= i < s.len() && s[i] == '[' {
        if i + 1 < s.len() && s[i + 1] == ']' {
            Some((Seq::empty(), i + 2))
        } else {
            dec_strlist(s, i + 1)
        }
    } else {
        None
    }
}

proof fn lemma_dec_parents_advances(s: Seq<char>, i: int)
    ensures
        dec_parents(s, i) matches Some(r) ==> i < r.1 <= s.len(),
{
    lemma_dec_strlist_advances(s, i + 1);
}

/// Reads an optional numeric field whose comma-prefixed key is `lit`, from
/// position `i`; an absent key consumes nothing and decodes to `None`.
pub open spec fn dec_opt_num(s: Seq<char>, i: int, lit: Seq<char>) -> Option<(Option<u64>, int)> {
    if lit_at(s, i, lit) {
        match dec_numstr(s, i + lit.len()) {
            None => None,
            Some(v) => if v.0 <= u64::MAX as nat {
                Some((Some(v.0 as u64), v.1))
            } else {
                None
            },
        }
    } else {
        Some((None, i))
    }
}

proof fn lemma_dec_opt_num_advances(s: Seq<char>, i: int, lit: Seq<char>)
    requires
        0 <= i <= s.len(),
    ensures
        dec_opt_num(s, i, lit) matches Some(r) ==> i <= r.1 <= s.len(),
{
    lemma_dec_numstr_advances(s, i + lit.len());
}

/// Reads an optional string field whose comma-prefixed key is `lit`, from
/// position `i`; an absent key consumes nothing and decodes to `None`.
pub open spec fn dec_opt_str(s: Seq<char>, i: int, lit: Seq<char>) -> Option<
    (Option<Seq<char>>, int),
> {
    if lit_at(s, i, lit) {
        match dec_string(s, i + lit.len()) {
            None => None,
            Some(v) => Some((Some(v.0), v.1)),
        }
    } else {
        Some((None, i))
    }
}

proof fn lemma_dec_opt_str_advances(s: Seq<char>, i: int, lit: Seq<char>)
    requires
        0 <= i <= s.len(),
    ensures
        dec_opt_str(s, i, lit) matches Some(r) ==> i <= r.1 <= s.len(),
{
    lemma_dec_string_advances(s, i + lit.len());
}

/// Reads one encoded record from position `i`: the fixed fields in order,
/// then whichever optional fields are present, then the closing brace.
pub open spec fn dec_record(s: Seq<char>, i: int) -> Option<(FileRecordView, int)> {
    if !lit_at(s, i, seq!['{'] + key_id()) {
        None
    } else {
        match dec_string(s, i + 6) {
            None => None,
            Some(id) => if !lit_at(s, id.1, seq![','] + key_mime_type()) {
                None
            } else {
                match dec_string(s, id.1 + 12) {
                    None => None,
                    Some(mt) => if !lit_at(s, mt.1, seq![','] + key_parents()) {
                        None
                    } else {
                        match dec_parents(s, mt.1 + 11) {
                            None => None,
                            Some(ps) => if !lit_at(s, ps.1, seq![','] + key_name()) {
                                None
                            } else {
                                match dec_string(s, ps.1 + 8) {
                                    None => None,
                                    Some(nm) => match dec_opt_num(s, nm.1, seq![','] + key_quota()) {
                                        None => None,
                                        Some(q) => match dec_opt_num(s, q.1, seq![','] + key_size()) {
                                            None => None,
                                            Some(sz) => match dec_opt_str(s, sz.1, seq![','] + key_sha()) {
                                                None => None,
                                                Some(sha) => if sha.1 < s.len() && s[sha.1]
                                                    == '}' {
                                                    Some(
                                                        (
                                                            FileRecordView {
                                                                id: id.0,
                                                                mime_type: mt.0,
                                                                parents: ps.0,
                                                                name: nm.0,
                                                                quota_bytes_used: q.0,
                                                                size: sz.0,
                                                                sha256_checksum: sha.0,
                                                            },
                                                            sha.1 + 1,
                                                        ),
                                                    )
                                                } else {
                                                    None
                                                },
                                            },
                                        },
                                    },
                                }
                            },
                        }
                    },
                }
            },
        }
    }
}

proof fn lemma_dec_record_advances(s: Seq<char>, i: int)
    ensures
        dec_record(s, i) matches Some(r) ==> i < r.1 <= s.len(),
{
    if lit_at(s, i, seq!['{'] + key_id()) {
        lemma_dec_string_advances(s, i + 6);
        match dec_string(s, i + 6) {
            None => {}
            Some(id) => {
                lemma_dec_string_advances(s, id.1 + 12);
                match dec_string(s, id.1 + 12) {
                    None => {}
                    Some(mt) => {
                        lemma_dec_parents_advances(s, mt.1 + 11);
                        match dec_parents(s, mt.1 + 11) {
                            None => {}
                            Some(ps) => {
                                lemma_dec_string_advances(s, ps.1 + 8);
                                match dec_string(s, ps.1 + 8) {
                                    None => {}
                                    Some(nm) => {
                                        lemma_dec_opt_num_advances(s, nm.1, seq![','] + key_quota());
                                        match dec_opt_num(s, nm.1, seq![','] + key_quota()) {
                                            None => {}
                                            Some(q) => {
                                                lemma_dec_opt_num_advances(s, q.1, seq![','] + key_size());
                                                match dec_opt_num(s, q.1, seq![','] + key_size()) {
                                                    None => {}
                                                    Some(sz) => {
                                                        lemma_dec_opt_str_advances(
                                                            s,
                                                            sz.1,
                                                            seq![','] + key_sha(),
                                                        );
                                                    }
                                                }
                                            }
                                        }
                                    }
                                }
                            }
                        }
                    }
                }
            }
        }
    }
}

/// Reads the records of a nonempty encoded record array from position `i`
/// through its closing bracket.
pub open spec fn dec_reclist(s: Seq<char>, i: int) -> Option<(Seq<FileRecordView>, int)>
    decreases s.len() - i,
    via dec_reclist_decreases
{
    match dec_record(s, i) {
        None => None,
        Some(head) => if head.1 < s.len() && s[head.1] == ',' {
            match dec_reclist(s, head.1 + 1) {
                None => None,
                Some(rest) => Some((seq![head.0] + rest.0, rest.1)),
            }
        } else if head.1 < s.len() && s[head.1] == ']' {
            Some((seq![head.0], head.1 + 1))
        } else {
            None
        },
    }
}

#[via_fn]
proof fn dec_reclist_decreases(s: Seq<char>, i: int) {
    lemma_dec_record_advances(s, i);
}

proof fn lemma_dec_reclist_advances(s: Seq<char>, i: int)
    ensures
        dec_reclist(s, i) matches Some(r) ==> i < r.1 <= s.len(),
    decreases s.len() - i,
{
    lemma_dec_record_advances(s, i);
    match dec_record(s, i) {
        None => {}
        Some(head) => {
            if head.1 < s.len() && s[head.1] == ',' {
                lemma_dec_reclist_advances(s, head.1 + 1);
            }
        }
    }
}

/// Reads one encoded page from position `i`: its records, an optional
/// continuation token, and the closing brace.
pub open spec fn dec_page(s: Seq<char>, i: int) -> Option<(PageView, int)> {
    if !lit_at(s, i, seq!['{'] + key_files() + seq!['[']) {
        None
    } else {
        let start = i + 10;
        match (if start < s.len() && s[start] == ']' {
            Some((Seq::<FileRecordView>::empty(), start + 1))
        } else {
            dec_reclist(s, start)
        }) {
            None => None,
            Some(files) => match dec_opt_str(s, files.1, seq![','] + key_token()) {
                None => None,
                Some(tok) => if tok.1 < s.len() && s[tok.1] == '}' {
                    Some((PageView { files: files.0, next_page_token: tok.0 }, tok.1 + 1))
                } else {
                    None
                },
            },
        }
    }
}

proof fn lemma_dec_page_advances(s: Seq<char>, i: int)
    ensures
        dec_page(s, i) matches Some(r) ==> i < r.1 <= s.len(),
{
    if lit_at(s, i, seq!['{'] + key_files() + seq!['[']) {
        let start = i + 10;
        lemma_dec_reclist_advances(s, start);
        match (if start < s.len() && s[start] == ']' {
            Some((Seq::<FileRecordView>::empty(), start + 1))
        } else {
            dec_reclist(s, start)
        }) {
            None => {}
            Some(files) => {
                lemma_dec_opt_str_advances(s, files.1, seq![','] + key_token());
            }
        }
    }
}

/// Reads the pages of a nonempty encoded page array from position `i`
/// through its closing bracket.
pub open spec fn dec_pagelist(s: Seq<char>, i: int) -> Option<(Seq<PageView>, int)>
    decreases s.len() - i,
    via dec_pagelist_decreases
{
    match dec_page(s, i) {
        None => None,
        Some(head) => if head.1 < s.len() && s[head.1] == ',' {
            match dec_pagelist(s, head.1 + 1) {
                None => None,
                Some(rest) => Some((seq![head.0] + rest.0, rest.1)),
            }
        } else if head.1 < s.len() && s[head.1] == ']' {
            Some((seq![head.0], head.1 + 1))
        } else {
            None
        },
    }
}

#[via_fn]
proof fn dec_pagelist_decreases(s: Seq<char>, i: int) {
    lemma_dec_page_advances(s, i);
}

proof fn lemma_dec_pagelist_advances(s: Seq<char>, i: int)
    ensures
        dec_pagelist(s, i) matches Some(r) ==> i < r.1 <= s.len(),
    decreases s.len() - i,
{
    lemma_dec_page_advances(s, i);
    match dec_page(s, i) {
        None => {}
        Some(head) => {
            if head.1 < s.len() && s[head.1] == ',' {
                lemma_dec_pagelist_advances(s, head.1 + 1);
            }
        }
    }
}

/// Decodes a whole checkpoint document, or nothing when the text is not a
/// complete encoded state (with `null` parents allowed) with no trailing
/// characters.
pub open spec fn dec_state(s: Seq<char>) -> Option<Seq<PageView>> {
    if s.len() >= 2 && s[0] == '[' {
        if s[1] == ']' {
            if s.len() == 2 {
                Some(Seq::empty())
            } else {
                None
            }
        } else {
            match dec_pagelist(s, 1) {
                None => None,
                Some(ps) => if ps.1 == s.len() {
                    Some(ps.0)
                } else {
                    None
                },
            }
        }
    } else {
        None
    }
}

/// Appends the escaped body of `s`.
fn append_escaped(out: &mut String, s: &String)
    ensures
        final(out)@ == old(out)@ + esc(s@),
{
    let n = s.as_str().unicode_len();
    let mut i: usize = 0;
    proof {
        assert(out@ =~= old(out)@ + esc(s@.take(0)));
    }
    while i < n
        invariant
            i <= n,
            n == s@.len(),
            out@ == old(out)@ + esc(s@.take(i as int)),
        decreases n - i,
    {
        let c = s.as_str().get_char(i);
        if c == '"' || c == '\\' {
            push_char(out, '\\');
            push_char(out, c);
        } else {
            push_char(out, c);
        }
        proof {
            assert(s@.take(i + 1).drop_last() =~= s@.take(i as int));
            assert(s@.take(i + 1).last() == s@[i as int]);
            assert(out@ =~= old(out)@ + esc(s@.take(i + 1)));
        }
        i += 1;
    }
    proof {
        assert(s@.take(n as int) =~= s@);
    }
}

/// Appends the encoded form of `s`.
fn append_string(out: &mut String, s: &String)
    ensures
        final(out)@ == old(out)@ + enc_string(s@),
{
    push_char(out, '"');
    append_escaped(out, s);
    push_char(out, '"');
    proof {
        assert(out@ =~= old(out)@ + enc_string(s@));
    }
}

/// Appends the encoded form of the byte count `n`.
fn append_num(out: &mut String, n: u64)
    ensures
        final(out)@ == old(out)@ + enc_num(n as nat),
{
    push_char(out, '"');
    push_decimal(out, n);
    push_char(out, '"');
    proof {
        assert(out@ =~= old(out)@ + enc_num(n as nat));
    }
}

/// Appends the fixed head of one encoded record: id, mime type, parents and
/// name.
#[verifier::rlimit(100)]
fn append_record_head(out: &mut String, r: &FileRecord)
    ensures
        final(out)@ == old(out)@ + part_id(r@) + part_mime(r@) + part_parents(r@) + part_name(r@),
{
    out.append("{\"id\":");
    proof {
        reveal_strlit("{\"id\":");
        assert(("{\"id\":")@ =~= seq!['{'] + key_id());
    }
    append_string(out, &r.id);
    let ghost e1 = old(out)@ + part_id(r@);
    proof {
        assert(out@ =~= e1);
    }
    out.append(",\"mimeType\":");
    proof {
        reveal_strlit(",\"mimeType\":");
        assert((",\"mimeType\":")@ =~= seq![','] + key_mime_type());
    }
    append_string(out, &r.mime_type);
    let ghost e2 = e1 + part_mime(r@);
    proof {
        assert(out@ =~= e2);
    }
    out.append(",\"parents\":[");
    proof {
        reveal_strlit(",\"parents\":[");
        assert((",\"parents\":[")@ =~= seq![','] + key_parents() + seq!['[']);
    }
    let ghost mark = out@;
    let ghost pv = r.parents.deep_view();
    let mut k: usize = 0;
    proof {
        assert(out@ =~= mark + enc_strlist(pv.take(0)));
    }
    while k < r.parents.len()
        invariant
            k <= r.parents.len(),
            pv == r.parents.deep_view(),
            out@ == mark + enc_strlist(pv.take(k as int)),
        decreases r.parents.len() - k,
    {
        if k > 0 {
            push_char(out, ',');
        }
        append_string(out, &r.parents[k]);
        proof {
            assert(pv.take(k + 1).drop_last() =~= pv.take(k as int));
            assert(pv.take(k + 1).last() == pv[k as int]);
            assert(pv[k as int] == r.parents[k as int]@);
            assert(out@ =~= mark + enc_strlist(pv.take(k + 1)));
        }
        k += 1;
    }
    proof {
        assert(pv.take(r.parents.len() as int) =~= pv);
    }
    push_char(out, ']');
    let ghost e3 = e2 + part_parents(r@);
    proof {
        assert(out@ =~= e3);
    }
    out.append(",\"name\":");
    proof {
        reveal_strlit(",\"name\":");
        assert((",\"name\":")@ =~= seq![','] + key_name());
    }
    append_string(out, &r.name);
    proof {
        assert(out@ =~= e3 + part_name(r@));
    }
}

/// Appends one encoded record.
#[verifier::rlimit(100)]
fn append_record(out: &mut String, r: &FileRecord)
    ensures
        final(out)@ == old(out)@ + enc_record(r@),
{
    append_record_head(out, r);
    let ghost e4 = old(out)@ + part_id(r@) + part_mime(r@) + part_parents(r@) + part_name(r@);
    match r.quota_bytes_used {
        Some(n) => {
            out.append(",\"quotaBytesUsed\":");
            proof {
                reveal_strlit(",\"quotaBytesUsed\":");
                assert((",\"quotaBytesUsed\":")@ =~= seq![','] + key_quota());
            }
            append_num(out, n);
        }
        None => {}
    }
    let ghost e5 = e4 + part_quota(r@);
    proof {
        assert(out@ =~= e5);
    }
    match r.size {
        Some(n) => {
            out.append(",\"size\":");
            proof {
                reveal_strlit(",\"size\":");
                assert((",\"size\":")@ =~= seq![','] + key_size());
            }
            append_num(out, n);
        }
        None => {}
    }
    let ghost e6 = e5 + part_size(r@);
    proof {
        assert(out@ =~= e6);
    }
    match &r.sha256_checksum {
        Some(s) => {
            out.append(",\"sha256Checksum\":");
            proof {
                reveal_strlit(",\"sha256Checksum\":");
                assert((",\"sha256Checksum\":")@ =~= seq![','] + key_sha());
            }
            append_string(out, s);
        }
        None => {}
    }
    let ghost e7 = e6 + part_sha(r@);
    proof {
        assert(out@ =~= e7);
    }
    push_char(out, '}');
    proof {
        assert(out@ == e7.push('}'));
        assert(e7.push('}') =~= old(out)@ + enc_record(r@));
    }
}

/// Appends one encoded page.
#[verifier::rlimit(100)]
fn append_page(out: &mut String, p: &Page)
    ensures
        final(out)@ == old(out)@ + enc_page(p@),
{
    out.append("{\"files\":[");
    proof {
        reveal_strlit("{\"files\":[");
        assert(("{\"files\":[")@ =~= seq!['{'] + key_files() + seq!['[']);
    }
    let ghost mark = out@;
    let ghost fv = p.files.deep_view();
    let mut k: usize = 0;
    proof {
        assert(out@ =~= mark + enc_reclist(fv.take(0)));
    }
    while k < p.files.len()
        invariant
            k <= p.files.len(),
            fv == p.files.deep_view(),
            out@ == mark + enc_reclist(fv.take(k as int)),
        decreases p.files.len() - k,
    {
        if k > 0 {
            push_char(out, ',');
        }
        append_record(out, &p.files[k]);
        proof {
            assert(fv.take(k + 1).drop_last() =~= fv.take(k as int));
            assert(fv.take(k + 1).last() == fv[k as int]);
            assert(fv[k as int] == p.files[k as int]@);
            assert(out@ =~= mark + enc_reclist(fv.take(k + 1)));
        }
        k += 1;
    }
    proof {
        assert(fv.take(p.files.len() as int) =~= fv);
    }
    push_char(out, ']');
    let ghost g1 = old(out)@ + page_head(p@);
    proof {
        assert(out@ =~= g1);
    }
    match &p.next_page_token {
        Some(t) => {
            out.append(",\"nextPageToken\":");
            proof {
                reveal_strlit(",\"nextPageToken\":");
                assert((",\"nextPageToken\":")@ =~= seq![','] + key_token());
            }
            append_string(out, t);
        }
        None => {}
    }
    let ghost g2 = g1 + page_token_part(p@);
    proof {
        assert(out@ =~= g2);
    }
    push_char(out, '}');
    proof {
        assert(out@ == g2.push('}'));
        assert(g2.push('}') =~= old(out)@ + enc_page(p@));
    }
}

/// Encodes the accumulated pages as one checkpoint document.
pub fn encode_state(pages: &Vec<Page>) -> (out: String)
    ensures
        out@ == enc_state(pages.deep_view()),
{
    let mut out = String::new();
    push_char(&mut out, '[');
    let ghost pv = pages.deep_view();
    let mut k: usize = 0;
    proof {
        assert(out@ =~= seq!['['] + enc_pagelist(pv.take(0)));
    }
    while k < pages.len()
        invariant
            k <= pages.len(),
            pv == pages.deep_view(),
            out@ == seq!['['] + enc_pagelist(pv.take(k as int)),
        decreases pages.len() - k,
    {
        if k > 0 {
            push_char(&mut out, ',');
        }
        append_page(&mut out, &pages[k]);
        proof {
            assert(pv.take(k + 1).drop_last() =~= pv.take(k as int));
            assert(pv.take(k + 1).last() == pv[k as int]);
            assert(pv[k as int] == pages[k as int]@);
            assert(out@ =~= seq!['['] + enc_pagelist(pv.take(k + 1)));
        }
        k += 1;
    }
    proof {
        assert(pv.take(pages.len() as int) =~= pv);
    }
    push_char(&mut out, ']');
    proof {
        assert(out@ =~= enc_state(pv));
    }
    out
}

/// The value of a decimal digit character.
fn digit_of(c: char) -> (r: Option<u64>)
    ensures
        match r {
            Some(d) => digit_val(c) == d && d <= 9,
            None => digit_val(c) < 0,
        },
{
    if c == '0' {
        Some(0)
    } else if c == '1' {
        Some(1)
    } else if c == '2' {
        Some(2)
    } else if c == '3' {
        Some(3)
    } else if c == '4' {
        Some(4)
    } else if c == '5' {
        Some(5)
    } else if c == '6' {
        Some(6)
    } else if c == '7' {
        Some(7)
    } else if c == '8' {
        Some(8)
    } else if c == '9' {
        Some(9)
    } else {
        None
    }
}

/// Whether `lit` occurs in `s` at position `i`.
fn match_lit(s: &Vec<char>, i: usize, lit: &Vec<char>) -> (r: bool)
    ensures
        r == lit_at(s@, i as int, lit@),
        r ==> i + lit.len() <= s.len(),
{
    if i > s.len() || s.len() - i < lit.len() {
        return false;
    }
    let mut k: usize = 0;
    while k < lit.len()
        invariant
            k <= lit.len(),
            i + lit.len() <= s.len(),
            forall|t: int| 0 <= t < k ==> s@[i + t] == lit@[t],
        decreases lit.len() - k,
    {
        if s[i + k] != lit[k] {
            proof {
                assert(!lit_at(s@, i as int, lit@)) by {
                    if lit_at(s@, i as int, lit@) {
                        assert(s@.subrange(i as int, i + lit@.len())[k as int] == lit@[k as int]);
                    }
                }
            }
            return false;
        }
        k += 1;
    }
    proof {
        assert(s@.subrange(i as int, i + lit@.len()) =~= lit@);
    }
    true
}

/// Reads one encoded string starting at position `i`.
fn parse_string(s: &Vec<char>, i: usize) -> (r: Option<(String, usize)>)
    ensures
        match r {
            Some(v) => dec_string(s@, i as int) == Some((v.0@, v.1 as int)) && i < v.1 <= s.len(),
            None => dec_string(s@, i as int) is None,
        },
{
    if i >= s.len() || s[i] != '"' {
        return None;
    }
    let mut acc = String::new();
    let mut p: usize = i + 1;
    proof {
        assert(acc@ =~= Seq::<char>::empty());
        let b = dec_str_body(s@, p as int);
        if b is Some {
            assert(acc@ + b.unwrap().0 =~= b.unwrap().0);
        }
    }
    while p < s.len()
        invariant
            i < s.len(),
            s@[i as int] == '"',
            i + 1 <= p <= s.len(),
            ({
                let b = dec_str_body(s@, p as int);
                &&& (b is Some ==> dec_string(s@, i as int) == Some(
                    (acc@ + b.unwrap().0, b.unwrap().1),
                ))
                &&& (b is None ==> dec_string(s@, i as int) is None)
            }),
        decreases s.len() - p,
    {
        let c = s[p];
        if c == '"' {
            proof {
                assert(dec_str_body(s@, p as int) == Some((Seq::<char>::empty(), p + 1)));
                assert(acc@ + Seq::<char>::empty() =~= acc@);
            }
            return Some((acc, p + 1));
        } else if c == '\\' {
            if p + 1 < s.len() {
                let c2 = s[p + 1];
                if c2 == '"' || c2 == '\\' {
                    let ghost acc_old = acc@;
                    push_char(&mut acc, c2);
                    proof {
                        let b2 = dec_str_body(s@, p + 2);
                        if b2 is Some {
                            assert(dec_str_body(s@, p as int) == Some(
                                (seq![c2] + b2.unwrap().0, b2.unwrap().1),
                            ));
                            assert(acc_old + (seq![c2] + b2.unwrap().0) =~= acc@ + b2.unwrap().0);
                        } else {
                            assert(dec_str_body(s@, p as int) is None);
                        }
                    }
                    p = p + 2;
                } else {
                    proof {
                        assert(dec_str_body(s@, p as int) is None);
                    }
                    return None;
                }
            } else {
                proof {
                    assert(dec_str_body(s@, p as int) is None);
                }
                return None;
            }
        } else {
            let ghost acc_old = acc@;
            push_char(&mut acc, c);
            proof {
                let b2 = dec_str_body(s@, p + 1);
                if b2 is Some {
                    assert(dec_str_body(s@, p as int) == Some(
                        (seq![c] + b2.unwrap().0, b2.unwrap().1),
                    ));
                    assert(acc_old + (seq![c] + b2.unwrap().0) =~= acc@ + b2.unwrap().0);
                } else {
                    assert(dec_str_body(s@, p as int) is None);
                }
            }
            p = p + 1;
        }
    }
    proof {
        assert(dec_str_body(s@, p as int) is None);
    }
    None
}

/// Reads one encoded byte count starting at position `i`.
fn parse_number(s: &Vec<char>, i: usize) -> (r: Option<(u64, usize)>)
    ensures
        match r {
            Some(v) => dec_numstr(s@, i as int) == Some((v.0 as nat, v.1 as int)) && i < v.1
                <= s.len(),
            None => dec_numstr(s@, i as int) is None,
        },
{
    if i >= s.len() || i + 1 >= s.len() || s[i] != '"' {
        return None;
    }
    match digit_of(s[i + 1]) {
        None => {
            return None;
        }
        Some(_) => {}
    }
    let mut acc: u64 = 0;
    let mut p: usize = i + 1;
    while p < s.len()
        invariant
            i + 1 < s.len(),
            s@[i as int] == '"',
            digit_val(s@[i + 1]) >= 0,
            i + 1 <= p <= s.len(),
            ({
                let b = dec_num_body(s@, p as int, acc as nat);
                &&& (b is Some ==> dec_numstr(s@, i as int) == b)
                &&& (b is None ==> dec_numstr(s@, i as int) is None)
            }),
        decreases s.len() - p,
    {
        let c = s[p];
        if c == '"' {
            proof {
                assert(dec_num_body(s@, p as int, acc as nat) == Some((acc as nat, p + 1)));
            }
            return Some((acc, p + 1));
        }
        match digit_of(c) {
            None => {
                proof {
                    assert(dec_num_body(s@, p as int, acc as nat) is None);
                }
                return None;
            }
            Some(d) => {
                let wide: u128 = acc as u128 * 10 + d as u128;
                if wide > u64::MAX as u128 {
                    proof {
                        assert((acc as nat) * 10 + digit_val(c) > u64::MAX as nat);
                        assert(dec_num_body(s@, p as int, acc as nat) is None);
                    }
                    return None;
                }
                proof {
                    assert((acc as nat) * 10 + digit_val(c) == wide as nat);
                }
                acc = wide as u64;
                p = p + 1;
            }
        }
    }
    proof {
        assert(dec_num_body(s@, p as int, acc as nat) is None);
    }
    None
}

/// Reads the items of a nonempty encoded string array starting at position
/// `i`, through the closing bracket.
fn parse_strlist(s: &Vec<char>, i: usize) -> (r: Option<(Vec<String>, usize)>)
    ensures
        match r {
            Some(v) => dec_strlist(s@, i as int) == Some((v.0.deep_view(), v.1 as int)) && i < v.1
                <= s.len(),
            None => dec_strlist(s@, i as int) is None,
        },
{
    if i > s.len() {
        proof {
            assert(dec_string(s@, i as int) is None);
            assert(dec_strlist(s@, i as int) is None);
        }
        return None;
    }
    let mut acc: Vec<String> = Vec::new();
    let mut p: usize = i;
    proof {
        assert(acc.deep_view() =~= Seq::<Seq<char>>::empty());
        let b = dec_strlist(s@, p as int);
        if b is Some {
            assert(acc.deep_view() + b.unwrap().0 =~= b.unwrap().0);
            lemma_dec_strlist_advances(s@, p as int);
        }
    }
    loop
        invariant
            i <= p <= s.len(),
            ({
                let b = dec_strlist(s@, p as int);
                &&& (b is Some ==> dec_strlist(s@, i as int) == Some(
                    (acc.deep_view() + b.unwrap().0, b.unwrap().1),
                ) && i < b.unwrap().1 <= s.len())
                &&& (b is None ==> dec_strlist(s@, i as int) is None)
            }),
        decreases s.len() - p,
    {
        match parse_string(s, p) {
            None => {
                proof {
                    assert(dec_strlist(s@, p as int) is None);
                }
                return None;
            }
            Some((v, j)) => {
                let ghost acc_old = acc.deep_view();
                if j < s.len() && s[j] == ',' {
                    acc.push(v);
                    proof {
                        assert(acc.deep_view() =~= acc_old.push(
                            dec_string(s@, p as int).unwrap().0,
                        ));
                        let b2 = dec_strlist(s@, j + 1);
                        if b2 is Some {
                            assert(dec_strlist(s@, p as int) == Some(
                                (
                                    seq![dec_string(s@, p as int).unwrap().0] + b2.unwrap().0,
                                    b2.unwrap().1,
                                ),
                            ));
                            assert(acc_old + (seq![dec_string(s@, p as int).unwrap().0]
                                + b2.unwrap().0) =~= acc.deep_view() + b2.unwrap().0);
                            lemma_dec_strlist_advances(s@, j + 1);
                        } else {
                            assert(dec_strlist(s@, p as int) is None);
                        }
                    }
                    p = j + 1;
                } else if j < s.len() && s[j] == ']' {
                    acc.push(v);
                    proof {
                        assert(acc.deep_view() =~= acc_old.push(
                            dec_string(s@, p as int).unwrap().0,
                        ));
                        assert(dec_strlist(s@, p as int) == Some(
                            (seq![dec_string(s@, p as int).unwrap().0], j + 1),
                        ));
                        assert(acc_old + seq![dec_string(s@, p as int).unwrap().0]
                            =~= acc.deep_view());
                        assert(dec_strlist(s@, i as int) == Some((acc.deep_view(), j + 1)));
                    }
                    return Some((acc, j + 1));
                } else {
                    proof {
                        assert(dec_strlist(s@, p as int) is None);
                    }
                    return None;
                }
            }
        }
    }
}

/// Reads a parents field starting at position `i`: `null`, an empty array,
/// or a nonempty string array.
fn parse_parents(s: &Vec<char>, i: usize) -> (r: Option<(Vec<String>, usize)>)
    ensures
        match r {
            Some(v) => dec_parents(s@, i as int) == Some((v.0.deep_view(), v.1 as int)) && i < v.1
                <= s.len(),
            None => dec_parents(s@, i as int) is None,
        },
{
    let lit_null: Vec<char> = vec!['n', 'u', 'l', 'l'];
    proof {
        assert(lit_null@ =~= seq!['n', 'u', 'l', 'l']);
    }
    if match_lit(s, i, &lit_null) {
        let out: Vec<String> = Vec::new();
        proof {
            assert(out.deep_view() =~= Seq::<Seq<char>>::empty());
        }
        return Some((out, i + 4));
    }
    if i < s.len() && s[i] == '[' {
        if i + 1 < s.len() && s[i + 1] == ']' {
            let out: Vec<String> = Vec::new();
            proof {
                assert(out.deep_view() =~= Seq::<Seq<char>>::empty());
            }
            return Some((out, i + 2));
        }
        match parse_strlist(s, i + 1) {
            None => None,
            Some((v, j)) => Some((v, j)),
        }
    } else {
        None
    }
}

/// Reads an optional numeric field whose comma-prefixed key is `lit`.
fn parse_opt_num(s: &Vec<char>, i: usize, lit: &Vec<char>) -> (r: Option<(Option<u64>, usize)>)
    requires
        i <= s.len(),
    ensures
        match r {
            Some(v) => dec_opt_num(s@, i as int, lit@) == Some((v.0, v.1 as int)) && i <= v.1
                <= s.len(),
            None => dec_opt_num(s@, i as int, lit@) is None,
        },
{
    if match_lit(s, i, lit) {
        match parse_number(s, i + lit.len()) {
            None => None,
            Some((v, j)) => Some((Some(v), j)),
        }
    } else {
        Some((None, i))
    }
}

/// Reads an optional string field whose comma-prefixed key is `lit`.
fn parse_opt_str(s: &Vec<char>, i: usize, lit: &Vec<char>) -> (r: Option<(Option<String>, usize)>)
    requires
        i <= s.len(),
    ensures
        match r {
            Some(v) => dec_opt_str(s@, i as int, lit@) == Some((v.0.deep_view(), v.1 as int)) && i
                <= v.1 <= s.len(),
            None => dec_opt_str(s@, i as int, lit@) is None,
        },
{
    if match_lit(s, i, lit) {
        match parse_string(s, i + lit.len()) {
            None => None,
            Some((v, j)) => Some((Some(v), j)),
        }
    } else {
        Some((None, i))
    }
}

/// Reads one encoded record starting at position `i`.
#[verifier::rlimit(100)]
fn parse_record(s: &Vec<char>, i: usize) -> (r: Option<(FileRecord, usize)>)
    ensures
        match r {
            Some(v) => dec_record(s@, i as int) == Some((v.0@, v.1 as int)) && i < v.1 <= s.len(),
            None => dec_record(s@, i as int) is None,
        },
{
    let lit_open: Vec<char> = vec!['{', '"', 'i', 'd', '"', ':'];
    proof {
        assert(lit_open@ =~= seq!['{'] + key_id());
    }
    if !match_lit(s, i, &lit_open) {
        return None;
    }
    let (id, i1) = match parse_string(s, i + 6) {
        None => {
            return None;
        }
        Some(v) => v,
    };
    let lit_mime: Vec<char> = vec![',', '"', 'm', 'i', 'm', 'e', 'T', 'y', 'p', 'e', '"', ':'];
    proof {
        assert(lit_mime@ =~= seq![','] + key_mime_type());
    }
    if !match_lit(s, i1, &lit_mime) {
        return None;
    }
    let (mt, i2) = match parse_string(s, i1 + 12) {
        None => {
            return None;
        }
        Some(v) => v,
    };
    let lit_parents: Vec<char> = vec![',', '"', 'p', 'a', 'r', 'e', 'n', 't', 's', '"', ':'];
    proof {
        assert(lit_parents@ =~= seq![','] + key_parents());
    }
    if !match_lit(s, i2, &lit_parents) {
        return None;
    }
    let (ps, i3) = match parse_parents(s, i2 + 11) {
        None => {
            return None;
        }
        Some(v) => v,
    };
    let lit_name: Vec<char> = vec![',', '"', 'n', 'a', 'm', 'e', '"', ':'];
    proof {
        assert(lit_name@ =~= seq![','] + key_name());
    }
    if !match_lit(s, i3, &lit_name) {
        return None;
    }
    let (nm, i4) = match parse_string(s, i3 + 8) {
        None => {
            return None;
        }
        Some(v) => v,
    };
    let lit_quota: Vec<char> = vec![
        ',',
        '"',
        'q',
        'u',
        'o',
        't',
        'a',
        'B',
        'y',
        't',
        'e',
        's',
        'U',
        's',
        'e',
        'd',
        '"',
        ':',
    ];
    proof {
        assert(lit_quota@ =~= seq![','] + key_quota());
    }
    let (q, i5) = match parse_opt_num(s, i4, &lit_quota) {
        None => {
            return None;
        }
        Some(v) => v,
    };
    let lit_size: Vec<char> = vec![',', '"', 's', 'i', 'z', 'e', '"', ':'];
    proof {
        assert(lit_size@ =~= seq![','] + key_size());
    }
    let (sz, i6) = match parse_opt_num(s, i5, &lit_size) {
        None => {
            return None;
        }
        Some(v) => v,
    };
    let lit_sha: Vec<char> = vec![
        ',',
        '"',
        's',
        'h',
        'a',
        '2',
        '5',
        '6',
        'C',
        'h',
        'e',
        'c',
        'k',
        's',
        'u',
        'm',
        '"',
        ':',
    ];
    proof {
        assert(lit_sha@ =~= seq![','] + key_sha());
    }
    let (sha, i7) = match parse_opt_str(s, i6, &lit_sha) {
        None => {
            return None;
        }
        Some(v) => v,
    };
    if i7 < s.len() && s[i7] == '}' {
        let rec = FileRecord {
            id,
            mime_type: mt,
            parents: ps,
            name: nm,
            quota_bytes_used: q,
            size: sz,
            sha256_checksum: sha,
        };
        proof {
            assert(rec@ == dec_record(s@, i as int).unwrap().0);
        }
        Some((rec, i7 + 1))
    } else {
        None
    }
}

/// Reads the records of a nonempty encoded record array starting at
/// position `i`, through the closing bracket.
fn parse_reclist(s: &Vec<char>, i: usize) -> (r: Option<(Vec<FileRecord>, usize)>)
    ensures
        match r {
            Some(v) => dec_reclist(s@, i as int) == Some((v.0.deep_view(), v.1 as int)) && i < v.1
                <= s.len(),
            None => dec_reclist(s@, i as int) is None,
        },
{
    if i > s.len() {
        proof {
            assert(dec_record(s@, i as int) is None);
            assert(dec_reclist(s@, i as int) is None);
        }
        return None;
    }
    let mut acc: Vec<FileRecord> = Vec::new();
    let mut p: usize = i;
    proof {
        assert(acc.deep_view() =~= Seq::<FileRecordView>::empty());
        let b = dec_reclist(s@, p as int);
        if b is Some {
            assert(acc.deep_view() + b.unwrap().0 =~= b.unwrap().0);
            lemma_dec_reclist_advances(s@, p as int);
        }
    }
    loop
        invariant
            i <= p <= s.len(),
            ({
                let b = dec_reclist(s@, p as int);
                &&& (b is Some ==> dec_reclist(s@, i as int) == Some(
                    (acc.deep_view() + b.unwrap().0, b.unwrap().1),
                ) && i < b.unwrap().1 <= s.len())
                &&& (b is None ==> dec_reclist(s@, i as int) is None)
            }),
        decreases s.len() - p,
    {
        match parse_record(s, p) {
            None => {
                proof {
                    assert(dec_reclist(s@, p as int) is None);
                }
                return None;
            }
            Some((v, j)) => {
                let ghost acc_old = acc.deep_view();
                let ghost vv = dec_record(s@, p as int).unwrap().0;
                if j < s.len() && s[j] == ',' {
                    acc.push(v);
                    proof {
                        assert(acc.deep_view() =~= acc_old.push(vv));
                        let b2 = dec_reclist(s@, j + 1);
                        if b2 is Some {
                            assert(dec_reclist(s@, p as int) == Some(
                                (seq![vv] + b2.unwrap().0, b2.unwrap().1),
                            ));
                            assert(acc_old + (seq![vv] + b2.unwrap().0) =~= acc.deep_view()
                                + b2.unwrap().0);
                            lemma_dec_reclist_advances(s@, j + 1);
                        } else {
                            assert(dec_reclist(s@, p as int) is None);
                        }
                    }
                    p = j + 1;
                } else if j < s.len() && s[j] == ']' {
                    acc.push(v);
                    proof {
                        assert(acc.deep_view() =~= acc_old.push(vv));
                        assert(dec_reclist(s@, p as int) == Some((seq![vv], j + 1)));
                        assert(acc_old + seq![vv] =~= acc.deep_view());
                        assert(dec_reclist(s@, i as int) == Some((acc.deep_view(), j + 1)));
                    }
                    return Some((acc, j + 1));
                } else {
                    proof {
                        assert(dec_reclist(s@, p as int) is None);
                    }
                    return None;
                }
            }
        }
    }
}

/// Reads one encoded page starting at position `i`.
fn parse_page(s: &Vec<char>, i: usize) -> (r: Option<(Page, usize)>)
    ensures
        match r {
            Some(v) => dec_page(s@, i as int) == Some((v.0@, v.1 as int)) && i < v.1 <= s.len(),
            None => dec_page(s@, i as int) is None,
        },
{
    let lit_open: Vec<char> = vec!['{', '"', 'f', 'i', 'l', 'e', 's', '"', ':', '['];
    proof {
        assert(lit_open@ =~= seq!['{'] + key_files() + seq!['[']);
    }
    if !match_lit(s, i, &lit_open) {
        return None;
    }
    let start = i + 10;
    let (files, j1): (Vec<FileRecord>, usize) = if start < s.len() && s[start] == ']' {
        let out: Vec<FileRecord> = Vec::new();
        proof {
            assert(out.deep_view() =~= Seq::<FileRecordView>::empty());
        }
        (out, start + 1)
    } else {
        match parse_reclist(s, start) {
            None => {
                return None;
            }
            Some(v) => v,
        }
    };
    let lit_token: Vec<char> = vec![
        ',',
        '"',
        'n',
        'e',
        'x',
        't',
        'P',
        'a',
        'g',
        'e',
        'T',
        'o',
        'k',
        'e',
        'n',
        '"',
        ':',
    ];
    proof {
        assert(lit_token@ =~= seq![','] + key_token());
    }
    let (tok, j2) = match parse_opt_str(s, j1, &lit_token) {
        None => {
            return None;
        }
        Some(v) => v,
    };
    if j2 < s.len() && s[j2] == '}' {
        let page = Page { files, next_page_token: tok };
        proof {
            assert(page@ == dec_page(s@, i as int).unwrap().0);
        }
        Some((page, j2 + 1))
    } else {
        None
    }
}

/// Reads the pages of a nonempty encoded page array starting at position
/// `i`, through the closing bracket.
fn parse_pagelist(s: &Vec<char>, i: usize) -> (r: Option<(Vec<Page>, usize)>)
    ensures
        match r {
            Some(v) => dec_pagelist(s@, i as int) == Some((v.0.deep_view(), v.1 as int)) && i < v.1
                <= s.len(),
            None => dec_pagelist(s@, i as int) is None,
        },
{
    if i > s.len() {
        proof {
            assert(dec_page(s@, i as int) is None);
            assert(dec_pagelist(s@, i as int) is None);
        }
        return None;
    }
    let mut acc: Vec<Page> = Vec::new();
    let mut p: usize = i;
    proof {
        assert(acc.deep_view() =~= Seq::<PageView>::empty());
        let b = dec_pagelist(s@, p as int);
        if b is Some {
            assert(acc.deep_view() + b.unwrap().0 =~= b.unwrap().0);
            lemma_dec_pagelist_advances(s@, p as int);
        }
    }
    loop
        invariant
            i <= p <= s.len(),
            ({
                let b = dec_pagelist(s@, p as int);
                &&& (b is Some ==> dec_pagelist(s@, i as int) == Some(
                    (acc.deep_view() + b.unwrap().0, b.unwrap().1),
                ) && i < b.unwrap().1 <= s.len())
                &&& (b is None ==> dec_pagelist(s@, i as int) is None)
            }),
        decreases s.len() - p,
    {
        match parse_page(s, p) {
            None => {
                proof {
                    assert(dec_pagelist(s@, p as int) is None);
                }
                return None;
            }
            Some((v, j)) => {
                let ghost acc_old = acc.deep_view();
                let ghost vv = dec_page(s@, p as int).unwrap().0;
                if j < s.len() && s[j] == ',' {
                    acc.push(v);
                    proof {
                        assert(acc.deep_view() =~= acc_old.push(vv));
                        let b2 = dec_pagelist(s@, j + 1);
                        if b2 is Some {
                            assert(dec_pagelist(s@, p as int) == Some(
                                (seq![vv] + b2.unwrap().0, b2.unwrap().1),
                            ));
                            assert(acc_old + (seq![vv] + b2.unwrap().0) =~= acc.deep_view()
                                + b2.unwrap().0);
                            lemma_dec_pagelist_advances(s@, j + 1);
                        } else {
                            assert(dec_pagelist(s@, p as int) is None);
                        }
                    }
                    p = j + 1;
                } else if j < s.len() && s[j] == ']' {
                    acc.push(v);
                    proof {
                        assert(acc.deep_view() =~= acc_old.push(vv));
                        assert(dec_pagelist(s@, p as int) == Some((seq![vv], j + 1)));
                        assert(acc_old + seq![vv] =~= acc.deep_view());
                        assert(dec_pagelist(s@, i as int) == Some((acc.deep_view(), j + 1)));
                    }
                    return Some((acc, j + 1));
                } else {
                    proof {
                        assert(dec_pagelist(s@, p as int) is None);
                    }
                    return None;
                }
            }
        }
    }
}

/// Decodes a whole checkpoint document back into its pages; fails on any
/// text the canonical encoder (widened by null parents) would not produce.
pub fn parse_state(s: &Vec<char>) -> (r: Option<Vec<Page>>)
    ensures
        match r {
            Some(pages) => dec_state(s@) == Some(pages.deep_view()),
            None => dec_state(s@) is None,
        },
{
    if s.len() < 2 || s[0] != '[' {
        return None;
    }
    if s[1] == ']' {
        if s.len() == 2 {
            let out: Vec<Page> = Vec::new();
            proof {
                assert(out.deep_view() =~= Seq::<PageView>::empty());
            }
            return Some(out);
        } else {
            return None;
        }
    }
    match parse_pagelist(s, 1) {
        None => None,
        Some((ps, j)) => if j == s.len() {
            Some(ps)
        } else {
            None
        },
    }
}

/// The encoding of one character inside a string body.
pub open spec fn esc_char(c: char) -> Seq<char> {
    if c == '"' || c == '\\' {
        seq!['\\', c]
    } else {
        seq![c]
    }
}

proof fn lemma_esc_front(v: Seq<char>)
    requires
        v.len() > 0,
    ensures
        esc(v) == esc_char(v[0]) + esc(v.skip(1)),
    decreases v.len(),
{
    if v.len() == 1 {
        assert(v.drop_last() =~= Seq::<char>::empty());
        assert(v.skip(1) =~= Seq::<char>::empty());
        assert(esc(v) =~= esc_char(v[0]) + esc(v.skip(1)));
    } else {
        let dl = v.drop_last();
        lemma_esc_front(dl);
        assert(v.skip(1).drop_last() =~= dl.skip(1));
        assert(v.skip(1).last() == v.last());
        assert(esc(v.skip(1)) == esc(dl.skip(1)) + esc_char_tail(v));
        assert(esc(v) == (esc_char(v[0]) + esc(dl.skip(1))) + esc_char_tail(v));
        assert((esc_char(v[0]) + esc(dl.skip(1))) + esc_char_tail(v) =~= esc_char(v[0]) + (esc(
            dl.skip(1),
        ) + esc_char_tail(v)));
    }
}

/// What the last character of `v` contributes to `esc(v)`.
pub open spec fn esc_char_tail(v: Seq<char>) -> Seq<char> {
    if v.last() == '"' || v.last() == '\\' {
        seq!['\\', v.last()]
    } else {
        seq![v.last()]
    }
}

proof fn lemma_lit_at_index(s: Seq<char>, i: int, lit: Seq<char>, k: int)
    requires
        lit_at(s, i, lit),
        0 <= k < lit.len(),
    ensures
        s[i + k] == lit[k],
{
    assert(s.subrange(i, i + lit.len())[k] == s[i + k]);
}

proof fn lemma_lit_at_split(s: Seq<char>, i: int, a: Seq<char>, b: Seq<char>)
    requires
        lit_at(s, i, a + b),
    ensures
        lit_at(s, i, a),
        lit_at(s, i + a.len(), b),
{
    assert forall|k: int| 0 <= k < a.len() implies s.subrange(i, i + a.len())[k] == a[k] by {
        lemma_lit_at_index(s, i, a + b, k);
        assert((a + b)[k] == a[k]);
        assert(s.subrange(i, i + a.len())[k] == s[i + k]);
    }
    assert(s.subrange(i, i + a.len()) =~= a);
    assert forall|k: int|
        0 <= k < b.len() implies s.subrange(i + a.len(), i + a.len() + b.len())[k] == b[k] by {
        lemma_lit_at_index(s, i, a + b, a.len() + k);
        assert((a + b)[a.len() + k] == b[k]);
        assert(s.subrange(i + a.len(), i + a.len() + b.len())[k] == s[i + a.len() + k]);
    }
    assert(s.subrange(i + a.len(), i + a.len() + b.len()) =~= b);
}

proof fn lemma_dec_str_body_of_esc(s: Seq<char>, i: int, v: Seq<char>)
    requires
        lit_at(s, i, esc(v)),
        i + esc(v).len() < s.len(),
        s[i + esc(v).len()] == '"',
    ensures
        dec_str_body(s, i) == Some((v, i + esc(v).len() + 1)),
    decreases v.len(),
{
    if v.len() == 0 {
        assert(esc(v).len() == 0);
        assert(s[i] == '"');
    } else {
        let c = v[0];
        let rest = v.skip(1);
        lemma_esc_front(v);
        assert(esc(v) == esc_char(c) + esc(rest));
        let clen = esc_char(c).len();
        lemma_lit_at_split(s, i, esc_char(c), esc(rest));
        lemma_lit_at_index(s, i, esc_char(c), 0);
        if c == '"' || c == '\\' {
            lemma_lit_at_index(s, i, esc_char(c), 1);
            assert(s[i] == '\\');
            assert(s[i + 1] == c);
            lemma_dec_str_body_of_esc(s, i + 2, rest);
            assert(dec_str_body(s, i) == Some((seq![c] + rest, i + esc(v).len() + 1)));
            assert(seq![c] + rest =~= v);
        } else {
            assert(s[i] == c);
            lemma_dec_str_body_of_esc(s, i + 1, rest);
            assert(dec_str_body(s, i) == Some((seq![c] + rest, i + esc(v).len() + 1)));
            assert(seq![c] + rest =~= v);
        }
    }
}

proof fn lemma_dec_string_of_enc(s: Seq<char>, i: int, v: Seq<char>)
    requires
        lit_at(s, i, enc_string(v)),
        i + enc_string(v).len() <= s.len(),
    ensures
        dec_string(s, i) == Some((v, i + enc_string(v).len())),
{
    assert(enc_string(v) == (seq!['"'] + esc(v)) + seq!['"']);
    lemma_lit_at_split(s, i, seq!['"'] + esc(v), seq!['"']);
    lemma_lit_at_split(s, i, seq!['"'], esc(v));
    lemma_lit_at_index(s, i, seq!['"'], 0);
    lemma_lit_at_index(s, i + 1 + esc(v).len(), seq!['"'], 0);
    assert(s[i] == '"');
    assert(s[i + 1 + esc(v).len()] == '"');
    lemma_dec_str_body_of_esc(s, i + 1, v);
}

/// The value of a digit run folded onto `acc`, most significant first.
pub open spec fn digits_value(acc: nat, ds: Seq<char>) -> nat
    decreases ds.len(),
{
    if ds.len() == 0 {
        acc
    } else {
        digits_value((acc * 10 + digit_val(ds[0])) as nat, ds.skip(1))
    }
}

/// True when folding `ds` onto `acc` never leaves 64 bits.
pub open spec fn digits_fit(acc: nat, ds: Seq<char>) -> bool
    decreases ds.len(),
{
    if ds.len() == 0 {
        true
    } else {
        acc * 10 + digit_val(ds[0]) <= u64::MAX as nat && digits_fit(
            (acc * 10 + digit_val(ds[0])) as nat,
            ds.skip(1),
        )
    }
}

proof fn lemma_digits_value_push(acc: nat, ds: Seq<char>, c: char)
    requires
        digit_val(c) >= 0,
    ensures
        digits_value(acc, ds.push(c)) == digits_value(acc, ds) * 10 + digit_val(c),
        digits_fit(acc, ds.push(c)) <==> digits_fit(acc, ds) && digits_value(acc, ds) * 10
            + digit_val(c) <= u64::MAX as nat,
    decreases ds.len(),
{
    if ds.len() == 0 {
        assert(ds.push(c)[0] == c);
        assert(ds.push(c).skip(1) =~= Seq::<char>::empty());
        assert(digits_value((acc * 10 + digit_val(c)) as nat, Seq::<char>::empty()) == acc * 10
            + digit_val(c));
        assert(digits_fit((acc * 10 + digit_val(c)) as nat, Seq::<char>::empty()));
        assert(digits_value(acc, Seq::<char>::empty()) == acc);
        assert(digits_fit(acc, Seq::<char>::empty()));
    } else {
        assert(ds.push(c)[0] == ds[0]);
        assert(ds.push(c).skip(1) =~= ds.skip(1).push(c));
        let acc2 = (acc * 10 + digit_val(ds[0])) as nat;
        lemma_digits_value_push(acc2, ds.skip(1), c);
        assert(digits_value(acc, ds.push(c)) == digits_value(acc2, ds.skip(1).push(c)));
        assert(digits_value(acc, ds) == digits_value(acc2, ds.skip(1)));
        assert(digits_fit(acc, ds.push(c)) == (acc * 10 + digit_val(ds[0]) <= u64::MAX as nat
            && digits_fit(acc2, ds.skip(1).push(c))));
        assert(digits_fit(acc, ds) == (acc * 10 + digit_val(ds[0]) <= u64::MAX as nat
            && digits_fit(acc2, ds.skip(1))));
    }
}

proof fn lemma_digit_char_val(d: nat)
    requires
        d <= 9,
    ensures
        digit_val(crate::format::digit_char(d)) == d,
{
}

proof fn lemma_dec_digits_props(n: nat)
    requires
        n <= u64::MAX as nat,
    ensures
        dec_digits(n).len() > 0,
        digits_value(0, dec_digits(n)) == n,
        digits_fit(0, dec_digits(n)),
        forall|k: int| 0 <= k < dec_digits(n).len() ==> digit_val(#[trigger] dec_digits(n)[k]) >= 0,
    decreases n,
{
    if n < 10 {
        lemma_digit_char_val(n);
        let c = crate::format::digit_char(n);
        assert(dec_digits(n) == seq![c]);
        assert(dec_digits(n)[0] == c);
        assert(dec_digits(n).skip(1) =~= Seq::<char>::empty());
        assert(0 * 10 + digit_val(c) == n);
        assert(digits_value(n, Seq::<char>::empty()) == n);
        assert(digits_fit(n, Seq::<char>::empty()));
        assert(digits_value(0, dec_digits(n)) == digits_value(n, Seq::<char>::empty()));
        assert(digits_fit(0, dec_digits(n)) == (0 * 10 + digit_val(c) <= u64::MAX as nat
            && digits_fit(n, Seq::<char>::empty())));
    } else {
        lemma_dec_digits_props(n / 10);
        lemma_digit_char_val(n % 10);
        lemma_digits_value_push(0, dec_digits(n / 10), crate::format::digit_char(n % 10));
        assert(dec_digits(n) == dec_digits(n / 10).push(crate::format::digit_char(n % 10)));
        assert(digits_value(0, dec_digits(n)) == (n / 10) * 10 + (n % 10));
        assert forall|k: int|
            0 <= k < dec_digits(n).len() implies digit_val(#[trigger] dec_digits(n)[k]) >= 0 by {
            if k < dec_digits(n / 10).len() {
                assert(dec_digits(n)[k] == dec_digits(n / 10)[k]);
            } else {
                assert(dec_digits(n)[k] == crate::format::digit_char(n % 10));
            }
        }
    }
}

proof fn lemma_dec_num_body_of_digits(s: Seq<char>, i: int, acc: nat, ds: Seq<char>)
    requires
        lit_at(s, i, ds),
        i + ds.len() < s.len(),
        s[i + ds.len()] == '"',
        forall|k: int| 0 <= k < ds.len() ==> digit_val(#[trigger] ds[k]) >= 0,
        digits_fit(acc, ds),
        acc <= u64::MAX as nat,
    ensures
        dec_num_body(s, i, acc) == Some((digits_value(acc, ds), i + ds.len() + 1)),
    decreases ds.len(),
{
    if ds.len() == 0 {
        assert(s[i] == '"');
    } else {
        lemma_lit_at_index(s, i, ds, 0);
        assert(s[i] == ds[0]);
        assert(digit_val(s[i]) >= 0);
        assert(s[i] != '"');
        assert(ds =~= seq![ds[0]] + ds.skip(1));
        lemma_lit_at_split(s, i, seq![ds[0]], ds.skip(1));
        assert forall|k: int|
            0 <= k < ds.skip(1).len() implies digit_val(#[trigger] ds.skip(1)[k]) >= 0 by {
            assert(ds.skip(1)[k] == ds[k + 1]);
        }
        lemma_dec_num_body_of_digits(s, i + 1, (acc * 10 + digit_val(ds[0])) as nat, ds.skip(1));
    }
}

proof fn lemma_dec_numstr_of_enc(s: Seq<char>, i: int, n: u64)
    requires
        lit_at(s, i, enc_num(n as nat)),
    ensures
        dec_numstr(s, i) == Some((n as nat, i + enc_num(n as nat).len())),
{
    let ds = dec_digits(n as nat);
    lemma_dec_digits_props(n as nat);
    assert(enc_num(n as nat) == (seq!['"'] + ds) + seq!['"']);
    lemma_lit_at_split(s, i, seq!['"'] + ds, seq!['"']);
    lemma_lit_at_split(s, i, seq!['"'], ds);
    lemma_lit_at_index(s, i, seq!['"'], 0);
    lemma_lit_at_index(s, i + 1 + ds.len(), seq!['"'], 0);
    assert(s[i] == '"');
    assert(s[i + 1 + ds.len()] == '"');
    lemma_lit_at_index(s, i + 1, ds, 0);
    assert(digit_val(s[i + 1]) >= 0);
    lemma_dec_num_body_of_digits(s, i + 1, 0, ds);
}

proof fn lemma_lit_at_char(s: Seq<char>, i: int, lit: Seq<char>, k: int)
    requires
        0 <= k < lit.len(),
    ensures
        lit_at(s, i, lit) ==> s[i + k] == lit[k],
{
    if lit_at(s, i, lit) {
        lemma_lit_at_index(s, i, lit, k);
    }
}

proof fn lemma_enc_strlist_front(ps: Seq<Seq<char>>)
    requires
        ps.len() > 0,
    ensures
        enc_strlist(ps) == enc_string(ps[0]) + if ps.len() > 1 {
            seq![','] + enc_strlist(ps.skip(1))
        } else {
            Seq::<char>::empty()
        },
    decreases ps.len(),
{
    if ps.len() == 1 {
        assert(ps.drop_last() =~= Seq::<Seq<char>>::empty());
        assert(ps.last() == ps[0]);
        assert(enc_strlist(Seq::<Seq<char>>::empty()) == Seq::<char>::empty());
        assert(enc_strlist(ps) =~= enc_string(ps[0]) + Seq::<char>::empty());
    } else {
        let dl = ps.drop_last();
        lemma_enc_strlist_front(dl);
        assert(dl[0] == ps[0]);
        assert(ps.skip(1).drop_last() =~= dl.skip(1));
        assert(ps.skip(1).last() == ps.last());
        assert(ps.skip(1)[0] == ps[1]);
        if dl.len() == 1 {
            assert(dl.skip(1) =~= Seq::<Seq<char>>::empty());
            assert(enc_strlist(Seq::<Seq<char>>::empty()) == Seq::<char>::empty());
            assert(ps.skip(1).len() == 1);
            assert(enc_strlist(ps.skip(1)) == enc_strlist(ps.skip(1).drop_last()) + Seq::<
                char,
            >::empty() + enc_string(ps.skip(1).last()));
            assert(enc_strlist(ps.skip(1)) =~= enc_string(ps.last()));
            assert(enc_strlist(ps) =~= enc_string(ps[0]) + (seq![','] + enc_strlist(ps.skip(1))));
        } else {
            assert(enc_strlist(ps.skip(1)) == enc_strlist(dl.skip(1)) + seq![','] + enc_string(
                ps.last(),
            ));
            assert(enc_strlist(ps) =~= enc_string(ps[0]) + (seq![','] + enc_strlist(ps.skip(1))));
        }
    }
}

#[verifier::rlimit(100)]
proof fn lemma_dec_strlist_of_enc(s: Seq<char>, i: int, ps: Seq<Seq<char>>)
    requires
        ps.len() > 0,
        lit_at(s, i, enc_strlist(ps) + seq![']']),
    ensures
        dec_strlist(s, i) == Some((ps, i + enc_strlist(ps).len() + 1)),
    decreases ps.len(),
{
    lemma_enc_strlist_front(ps);
    let e0 = enc_string(ps[0]);
    if ps.len() == 1 {
        assert(enc_strlist(ps) + seq![']'] =~= e0 + seq![']']);
        lemma_lit_at_split(s, i, e0, seq![']']);
        lemma_dec_string_of_enc(s, i, ps[0]);
        lemma_lit_at_index(s, i + e0.len(), seq![']'], 0);
        assert(s[i + e0.len()] == ']');
        assert(seq![ps[0]] =~= ps);
    } else {
        let tail = enc_strlist(ps.skip(1)) + seq![']'];
        assert(enc_strlist(ps) + seq![']'] =~= e0 + (seq![','] + tail));
        lemma_lit_at_split(s, i, e0, seq![','] + tail);
        lemma_dec_string_of_enc(s, i, ps[0]);
        let j = i + e0.len();
        lemma_lit_at_split(s, j, seq![','], tail);
        lemma_lit_at_index(s, j, seq![','], 0);
        assert(s[j] == ',');
        lemma_dec_strlist_of_enc(s, j + 1, ps.skip(1));
        assert(seq![ps[0]] + ps.skip(1) =~= ps);
    }
}

proof fn lemma_dec_parents_of_enc(s: Seq<char>, i: int, ps: Seq<Seq<char>>)
    requires
        lit_at(s, i, seq!['['] + enc_strlist(ps) + seq![']']),
    ensures
        dec_parents(s, i) == Some((ps, i + enc_strlist(ps).len() + 2)),
{
    let mid = enc_strlist(ps);
    assert(seq!['['] + mid + seq![']'] =~= seq!['['] + (mid + seq![']']));
    lemma_lit_at_split(s, i, seq!['['], mid + seq![']']);
    lemma_lit_at_index(s, i, seq!['['], 0);
    assert(s[i] == '[');
    lemma_lit_at_char(s, i, seq!['n', 'u', 'l', 'l'], 0);
    assert(!lit_at(s, i, seq!['n', 'u', 'l', 'l']));
    lemma_lit_at_index(s, i + 1, mid + seq![']'], mid.len() as int);
    if ps.len() == 0 {
        assert(mid.len() == 0);
        assert(s[i + 1] == ']');
    } else {
        lemma_enc_strlist_front(ps);
        lemma_lit_at_index(s, i + 1, mid + seq![']'], 0);
        assert((mid + seq![']'])[0] == mid[0]);
        assert(mid[0] == enc_string(ps[0])[0]);
        assert(enc_string(ps[0])[0] == '"');
        assert(s[i + 1] == '"');
        lemma_dec_strlist_of_enc(s, i + 1, ps);
    }
}

proof fn lemma_not_lit(s: Seq<char>, i: int, lit: Seq<char>, k: int, follow: Seq<char>)
    requires
        lit_at(s, i, follow),
        0 <= k < lit.len(),
        k < follow.len(),
        follow[k] != lit[k],
    ensures
        !lit_at(s, i, lit),
{
    lemma_lit_at_index(s, i, follow, k);
    lemma_lit_at_char(s, i, lit, k);
}

#[verifier::rlimit(100)]
proof fn lemma_dec_record_of_enc(s: Seq<char>, i: int, r: FileRecordView)
    requires
        lit_at(s, i, enc_record(r)),
    ensures
        dec_record(s, i) == Some((r, i + enc_record(r).len())),
{
    let p1 = part_id(r);
    let p2 = part_mime(r);
    let p3 = part_parents(r);
    let p4 = part_name(r);
    let p5 = part_quota(r);
    let p6 = part_size(r);
    let p7 = part_sha(r);
    let br = seq!['}'];
    assert(enc_record(r) =~= p1 + (p2 + (p3 + (p4 + (p5 + (p6 + (p7 + br)))))));
    lemma_lit_at_split(s, i, p1, p2 + (p3 + (p4 + (p5 + (p6 + (p7 + br))))));
    assert(p1 =~= (seq!['{'] + key_id()) + enc_string(r.id));
    lemma_lit_at_split(s, i, seq!['{'] + key_id(), enc_string(r.id));
    lemma_dec_string_of_enc(s, i + 6, r.id);
    let i1 = i + p1.len();

    lemma_lit_at_split(s, i1, p2, p3 + (p4 + (p5 + (p6 + (p7 + br)))));
    assert(p2 =~= (seq![','] + key_mime_type()) + enc_string(r.mime_type));
    lemma_lit_at_split(s, i1, seq![','] + key_mime_type(), enc_string(r.mime_type));
    lemma_dec_string_of_enc(s, i1 + 12, r.mime_type);
    let i2 = i1 + p2.len();

    lemma_lit_at_split(s, i2, p3, p4 + (p5 + (p6 + (p7 + br))));
    assert(p3 =~= (seq![','] + key_parents()) + (seq!['['] + enc_strlist(r.parents) + seq![']']));
    lemma_lit_at_split(
        s,
        i2,
        seq![','] + key_parents(),
        seq!['['] + enc_strlist(r.parents) + seq![']'],
    );
    lemma_dec_parents_of_enc(s, i2 + 11, r.parents);
    let i3 = i2 + p3.len();

    lemma_lit_at_split(s, i3, p4, p5 + (p6 + (p7 + br)));
    assert(p4 =~= (seq![','] + key_name()) + enc_string(r.name));
    lemma_lit_at_split(s, i3, seq![','] + key_name(), enc_string(r.name));
    lemma_dec_string_of_enc(s, i3 + 8, r.name);
    let i4 = i3 + p4.len();

    let qlit = seq![','] + key_quota();
    let slit = seq![','] + key_size();
    let shalit = seq![','] + key_sha();
    lemma_lit_at_split(s, i4, p5, p6 + (p7 + br));
    match r.quota_bytes_used {
        Some(n) => {
            assert(p5 =~= qlit + enc_num(n as nat));
            lemma_lit_at_split(s, i4, qlit, enc_num(n as nat));
            lemma_dec_numstr_of_enc(s, i4 + qlit.len() as int, n);
            assert(dec_opt_num(s, i4, qlit) == Some((Some(n), i4 + p5.len() as int)));
        }
        None => {
            assert(p5.len() == 0);
            let follow = p6 + (p7 + br);
            match r.size {
                Some(_) => {
                    assert(follow[2] == p6[2]);
                    assert(p6[2] == 's');
                    lemma_not_lit(s, i4, qlit, 2, follow);
                }
                None => {
                    match r.sha256_checksum {
                        Some(_) => {
                            assert(p6.len() == 0);
                            assert(follow[2] == p7[2]);
                            assert(p7[2] == 's');
                            lemma_not_lit(s, i4, qlit, 2, follow);
                        }
                        None => {
                            assert(p6.len() == 0 && p7.len() == 0);
                            assert(follow[0] == '}');
                            lemma_not_lit(s, i4, qlit, 0, follow);
                        }
                    }
                }
            }
            assert(dec_opt_num(s, i4, qlit) == Some((None::<u64>, i4)));
        }
    }
    let i5 = i4 + p5.len();

    lemma_lit_at_split(s, i5, p6, p7 + br);
    match r.size {
        Some(n) => {
            assert(p6 =~= slit + enc_num(n as nat));
            lemma_lit_at_split(s, i5, slit, enc_num(n as nat));
            lemma_dec_numstr_of_enc(s, i5 + slit.len() as int, n);
            assert(dec_opt_num(s, i5, slit) == Some((Some(n), i5 + p6.len() as int)));
        }
        None => {
            assert(p6.len() == 0);
            let follow = p7 + br;
            match r.sha256_checksum {
                Some(_) => {
                    assert(follow[3] == p7[3]);
                    assert(p7[3] == 'h');
                    assert(slit[3] == 'i');
                    lemma_not_lit(s, i5, slit, 3, follow);
                }
                None => {
                    assert(p7.len() == 0);
                    assert(follow[0] == '}');
                    lemma_not_lit(s, i5, slit, 0, follow);
                }
            }
            assert(dec_opt_num(s, i5, slit) == Some((None::<u64>, i5)));
        }
    }
    let i6 = i5 + p6.len();

    lemma_lit_at_split(s, i6, p7, br);
    match r.sha256_checksum {
        Some(t) => {
            assert(p7 =~= shalit + enc_string(t));
            lemma_lit_at_split(s, i6, shalit, enc_string(t));
            lemma_dec_string_of_enc(s, i6 + shalit.len() as int, t);
            assert(dec_opt_str(s, i6, shalit) == Some(
                (Some(t), i6 + p7.len() as int),
            ));
        }
        None => {
            assert(p7.len() == 0);
            assert(br[0] == '}');
            lemma_not_lit(s, i6, shalit, 0, br);
            assert(dec_opt_str(s, i6, shalit) == Some((None::<Seq<char>>, i6)));
        }
    }
    let i7 = i6 + p7.len();
    lemma_lit_at_index(s, i7, br, 0);
    assert(s[i7] == '}');
    assert(dec_record(s, i) matches Some(v) && v.0 == r && v.1 == i + enc_record(r).len());
}

proof fn lemma_enc_reclist_front(rs: Seq<FileRecordView>)
    requires
        rs.len() > 0,
    ensures
        enc_reclist(rs) == enc_record(rs[0]) + if rs.len() > 1 {
            seq![','] + enc_reclist(rs.skip(1))
        } else {
            Seq::<char>::empty()
        },
    decreases rs.len(),
{
    if rs.len() == 1 {
        assert(rs.drop_last() =~= Seq::<FileRecordView>::empty());
        assert(rs.last() == rs[0]);
        assert(enc_reclist(Seq::<FileRecordView>::empty()) == Seq::<char>::empty());
        assert(enc_reclist(rs) =~= enc_record(rs[0]) + Seq::<char>::empty());
    } else {
        let dl = rs.drop_last();
        lemma_enc_reclist_front(dl);
        assert(dl[0] == rs[0]);
        assert(rs.skip(1).drop_last() =~= dl.skip(1));
        assert(rs.skip(1).last() == rs.last());
        if dl.len() == 1 {
            assert(dl.skip(1) =~= Seq::<FileRecordView>::empty());
            assert(enc_reclist(Seq::<FileRecordView>::empty()) == Seq::<char>::empty());
            assert(rs.skip(1).len() == 1);
            assert(enc_reclist(rs.skip(1)) == enc_reclist(rs.skip(1).drop_last()) + Seq::<
                char,
            >::empty() + enc_record(rs.skip(1).last()));
            assert(enc_reclist(rs.skip(1)) =~= enc_record(rs.last()));
            assert(enc_reclist(rs) =~= enc_record(rs[0]) + (seq![','] + enc_reclist(rs.skip(1))));
        } else {
            assert(enc_reclist(rs.skip(1)) == enc_reclist(dl.skip(1)) + seq![','] + enc_record(
                rs.last(),
            ));
            assert(enc_reclist(rs) =~= enc_record(rs[0]) + (seq![','] + enc_reclist(rs.skip(1))));
        }
    }
}

#[verifier::rlimit(100)]
proof fn lemma_dec_reclist_of_enc(s: Seq<char>, i: int, rs: Seq<FileRecordView>)
    requires
        rs.len() > 0,
        lit_at(s, i, enc_reclist(rs) + seq![']']),
    ensures
        dec_reclist(s, i) == Some((rs, i + enc_reclist(rs).len() + 1)),
    decreases rs.len(),
{
    lemma_enc_reclist_front(rs);
    let e0 = enc_record(rs[0]);
    if rs.len() == 1 {
        assert(enc_reclist(rs) + seq![']'] =~= e0 + seq![']']);
        lemma_lit_at_split(s, i, e0, seq![']']);
        lemma_dec_record_of_enc(s, i, rs[0]);
        lemma_lit_at_index(s, i + e0.len(), seq![']'], 0);
        assert(s[i + e0.len()] == ']');
        assert(seq![rs[0]] =~= rs);
    } else {
        let tail = enc_reclist(rs.skip(1)) + seq![']'];
        assert(enc_reclist(rs) + seq![']'] =~= e0 + (seq![','] + tail));
        lemma_lit_at_split(s, i, e0, seq![','] + tail);
        lemma_dec_record_of_enc(s, i, rs[0]);
        let j = i + e0.len();
        lemma_lit_at_split(s, j, seq![','], tail);
        lemma_lit_at_index(s, j, seq![','], 0);
        assert(s[j] == ',');
        lemma_dec_reclist_of_enc(s, j + 1, rs.skip(1));
        assert(seq![rs[0]] + rs.skip(1) =~= rs);
    }
}

#[verifier::rlimit(100)]
proof fn lemma_dec_page_of_enc(s: Seq<char>, i: int, p: PageView)
    requires
        lit_at(s, i, enc_page(p)),
    ensures
        dec_page(s, i) == Some((p, i + enc_page(p).len())),
{
    let head = page_head(p);
    let tokp = page_token_part(p);
    let br = seq!['}'];
    assert(enc_page(p) =~= head + (tokp + br));
    lemma_lit_at_split(s, i, head, tokp + br);
    let open = seq!['{'] + key_files() + seq!['['];
    assert(head =~= open + (enc_reclist(p.files) + seq![']']));
    lemma_lit_at_split(s, i, open, enc_reclist(p.files) + seq![']']);
    let start = i + 10;
    if p.files.len() == 0 {
        assert(enc_reclist(p.files).len() == 0);
        lemma_lit_at_index(s, start, enc_reclist(p.files) + seq![']'], 0);
        assert(s[start] == ']');
        assert(Seq::<FileRecordView>::empty() =~= p.files);
    } else {
        lemma_enc_reclist_front(p.files);
        lemma_lit_at_index(s, start, enc_reclist(p.files) + seq![']'], 0);
        assert((enc_reclist(p.files) + seq![']'])[0] == enc_reclist(p.files)[0]);
        assert(enc_reclist(p.files)[0] == enc_record(p.files[0])[0]);
        assert(enc_record(p.files[0])[0] == part_id(p.files[0])[0]);
        assert(part_id(p.files[0])[0] == '{');
        assert(s[start] == '{');
        lemma_dec_reclist_of_enc(s, start, p.files);
    }
    let j1 = i + head.len();
    let tlit = seq![','] + key_token();
    lemma_lit_at_split(s, j1, tokp, br);
    match p.next_page_token {
        Some(t) => {
            assert(tokp =~= tlit + enc_string(t));
            lemma_lit_at_split(s, j1, tlit, enc_string(t));
            lemma_dec_string_of_enc(s, j1 + tlit.len() as int, t);
            assert(dec_opt_str(s, j1, tlit) == Some((Some(t), j1 + tokp.len() as int)));
        }
        None => {
            assert(tokp.len() == 0);
            assert(br[0] == '}');
            lemma_not_lit(s, j1, tlit, 0, br);
            assert(dec_opt_str(s, j1, tlit) == Some((None::<Seq<char>>, j1)));
        }
    }
    let j2 = j1 + tokp.len();
    lemma_lit_at_index(s, j2, br, 0);
    assert(s[j2] == '}');
    assert(dec_page(s, i) matches Some(v) && v.0 == p && v.1 == i + enc_page(p).len());
}

proof fn lemma_enc_pagelist_front(ps: Seq<PageView>)
    requires
        ps.len() > 0,
    ensures
        enc_pagelist(ps) == enc_page(ps[0]) + if ps.len() > 1 {
            seq![','] + enc_pagelist(ps.skip(1))
        } else {
            Seq::<char>::empty()
        },
    decreases ps.len(),
{
    if ps.len() == 1 {
        assert(ps.drop_last() =~= Seq::<PageView>::empty());
        assert(ps.last() == ps[0]);
        assert(enc_pagelist(Seq::<PageView>::empty()) == Seq::<char>::empty());
        assert(enc_pagelist(ps) =~= enc_page(ps[0]) + Seq::<char>::empty());
    } else {
        let dl = ps.drop_last();
        lemma_enc_pagelist_front(dl);
        assert(dl[0] == ps[0]);
        assert(ps.skip(1).drop_last() =~= dl.skip(1));
        assert(ps.skip(1).last() == ps.last());
        if dl.len() == 1 {
            assert(dl.skip(1) =~= Seq::<PageView>::empty());
            assert(enc_pagelist(Seq::<PageView>::empty()) == Seq::<char>::empty());
            assert(ps.skip(1).len() == 1);
            assert(enc_pagelist(ps.skip(1)) == enc_pagelist(ps.skip(1).drop_last()) + Seq::<
                char,
            >::empty() + enc_page(ps.skip(1).last()));
            assert(enc_pagelist(ps.skip(1)) =~= enc_page(ps.last()));
            assert(enc_pagelist(ps) =~= enc_page(ps[0]) + (seq![','] + enc_pagelist(ps.skip(1))));
        } else {
            assert(enc_pagelist(ps.skip(1)) == enc_pagelist(dl.skip(1)) + seq![','] + enc_page(
                ps.last(),
            ));
            assert(enc_pagelist(ps) =~= enc_page(ps[0]) + (seq![','] + enc_pagelist(ps.skip(1))));
        }
    }
}

#[verifier::rlimit(100)]
proof fn lemma_dec_pagelist_of_enc(s: Seq<char>, i: int, ps: Seq<PageView>)
    requires
        ps.len() > 0,
        lit_at(s, i, enc_pagelist(ps) + seq![']']),
    ensures
        dec_pagelist(s, i) == Some((ps, i + enc_pagelist(ps).len() + 1)),
    decreases ps.len(),
{
    lemma_enc_pagelist_front(ps);
    let e0 = enc_page(ps[0]);
    if ps.len() == 1 {
        assert(enc_pagelist(ps) + seq![']'] =~= e0 + seq![']']);
        lemma_lit_at_split(s, i, e0, seq![']']);
        lemma_dec_page_of_enc(s, i, ps[0]);
        lemma_lit_at_index(s, i + e0.len(), seq![']'], 0);
        assert(s[i + e0.len()] == ']');
        assert(seq![ps[0]] =~= ps);
    } else {
        let tail = enc_pagelist(ps.skip(1)) + seq![']'];
        assert(enc_pagelist(ps) + seq![']'] =~= e0 + (seq![','] + tail));
        lemma_lit_at_split(s, i, e0, seq![','] + tail);
        lemma_dec_page_of_enc(s, i, ps[0]);
        let j = i + e0.len();
        lemma_lit_at_split(s, j, seq![','], tail);
        lemma_lit_at_index(s, j, seq![','], 0);
        assert(s[j] == ',');
        lemma_dec_pagelist_of_enc(s, j + 1, ps.skip(1));
        assert(seq![ps[0]] + ps.skip(1) =~= ps);
    }
}

/// Round trip: decoding an encoded checkpoint always succeeds and yields
/// exactly the pages that were encoded, so nothing a checkpoint write saves
/// is lost or changed by the read that resumes from it.
#[verifier::rlimit(100)]
pub proof fn lemma_state_round_trip(pages: Seq<PageView>)
    ensures
        dec_state(enc_state(pages)) == Some(pages),
{
    let s = enc_state(pages);
    assert(s.subrange(0, s.len() as int) =~= s);
    assert(lit_at(s, 0, s));
    assert(s =~= seq!['['] + (enc_pagelist(pages) + seq![']']));
    lemma_lit_at_split(s, 0, seq!['['], enc_pagelist(pages) + seq![']']);
    lemma_lit_at_index(s, 0, seq!['['], 0);
    assert(s[0] == '[');
    if pages.len() == 0 {
        assert(enc_pagelist(pages).len() == 0);
        lemma_lit_at_index(s, 1, enc_pagelist(pages) + seq![']'], 0);
        assert(s[1] == ']');
        assert(s.len() == 2);
        assert(pages =~= Seq::<PageView>::empty());
    } else {
        lemma_enc_pagelist_front(pages);
        lemma_lit_at_index(s, 1, enc_pagelist(pages) + seq![']'], 0);
        assert((enc_pagelist(pages) + seq![']'])[0] == enc_pagelist(pages)[0]);
        assert(enc_pagelist(pages)[0] == enc_page(pages[0])[0]);
        assert(enc_page(pages[0])[0] == page_head(pages[0])[0]);
        assert(page_head(pages[0])[0] == '{');
        assert(s[1] == '{');
        assert(s[1] != ']');
        lemma_dec_pagelist_of_enc(s, 1, pages);
    }
}

} // verus!
