//! Records and the line codec.
//!
//! A record is a key-value pair of strings. One record serializes to one
//! line of text: the key and the value, each with `\`, tab and newline
//! escaped, joined by a tab. The encoding is newline-safe — an encoded
//! line never contains a raw newline — so a file of records is the
//! records' lines each terminated by `'\n'`. Decoding is the exact
//! inverse: `decode(encode(r)) == r` for every record `r`, and a line
//! that no record encodes to is rejected with `KvError::DecodeError`.

use vstd::prelude::*;

verus! {

/// The view of a record: its key's and its value's character sequences.
pub type RecView = (Seq<char>, Seq<char>);

/// A key-value pair, the unit of storage throughout the store.
#[derive(Debug)]
pub struct KVPair {
    pub key: String,
    pub value: String,
}

impl View for KVPair {
    type V = RecView;

    open spec fn view(&self) -> RecView {
        (self.key@, self.value@)
    }
}

impl Clone for KVPair {
    fn clone(&self) -> (r: Self)
        ensures
            r@ == self@,
    {
        KVPair { key: self.key.clone(), value: self.value.clone() }
    }
}

/// Errors of the codec.
#[derive(Debug, PartialEq, Eq, Structural, Clone, Copy)]
pub enum KvError {
    /// A line was not the encoding of any record.
    DecodeError,
}

/// Relies on `String::push`: appends exactly the given character.
pub assume_specification[ String::push ](s: &mut String, c: char)
    ensures
        final(s)@ == old(s)@.push(c),
;

/// The escaped form of one character.
pub open spec fn esc1(c: char) -> Seq<char> {
    if c == '\\' {
        seq!['\\', '\\']
    } else if c == '\n' {
        seq!['\\', 'n']
    } else if c == '\t' {
        seq!['\\', 't']
    } else {
        seq![c]
    }
}

/// The escaped form of a field: each character in turn.
pub open spec fn esc(s: Seq<char>) -> Seq<char>
    decreases s.len(),
{
    if s.len() == 0 {
        Seq::empty()
    } else {
        esc1(s[0]) + esc(s.skip(1))
    }
}

/// The character named by an escape code, if the code is recognized.
pub open spec fn esc_code(c: char) -> Option<char> {
    if c == 'n' {
        Some('\n')
    } else if c == 't' {
        Some('\t')
    } else if c == '\\' {
        Some('\\')
    } else {
        None
    }
}

/// The line a record encodes to: escaped key, tab, escaped value.
pub open spec fn enc(p: RecView) -> Seq<char> {
    esc(p.0) + seq!['\t'] + esc(p.1)
}

/// Unescape a value field; `None` if the field is malformed.
pub open spec fn unesc(l: Seq<char>) -> Option<Seq<char>>
    decreases l.len(),
{
    if l.len() == 0 {
        Some(Seq::empty())
    } else if l[0] == '\\' {
        if l.len() >= 2 && esc_code(l[1]) is Some {
            match unesc(l.skip(2)) {
                Some(t) => Some(seq![esc_code(l[1]).unwrap()] + t),
                None => None,
            }
        } else {
            None
        }
    } else if l[0] == '\t' || l[0] == '\n' {
        None
    } else {
        match unesc(l.skip(1)) {
            Some(t) => Some(seq![l[0]] + t),
            None => None,
        }
    }
}

/// Parse a whole line into a record view; `None` if the line is not an
/// encoding. The key runs to the first unescaped tab, the value to the end.
pub open spec fn dec_line(l: Seq<char>) -> Option<RecView>
    decreases l.len(),
{
    if l.len() == 0 {
        None
    } else if l[0] == '\t' {
        match unesc(l.skip(1)) {
            Some(v) => Some((Seq::empty(), v)),
            None => None,
        }
    } else if l[0] == '\\' {
        if l.len() >= 2 && esc_code(l[1]) is Some {
            match dec_line(l.skip(2)) {
                Some(p) => Some((seq![esc_code(l[1]).unwrap()] + p.0, p.1)),
                None => None,
            }
        } else {
            None
        }
    } else if l[0] == '\n' {
        None
    } else {
        match dec_line(l.skip(1)) {
            Some(p) => Some((seq![l[0]] + p.0, p.1)),
            None => None,
        }
    }
}

/// Escaping introduces no raw newline or tab.
pub proof fn lemma_esc_clean(s: Seq<char>)
    ensures
        forall|j: int| 0 <= j < esc(s).len() ==> esc(s)[j] != '\n' && esc(s)[j] != '\t',
    decreases s.len(),
{
    if s.len() > 0 {
        lemma_esc_clean(s.skip(1));
        assert forall|j: int| 0 <= j < esc(s).len() implies esc(s)[j] != '\n' && esc(s)[j]
            != '\t' by {
            let h = esc1(s[0]);
            if j >= h.len() {
                assert(esc(s)[j] == esc(s.skip(1))[j - h.len()]);
            }
        }
    }
}

/// An encoded line contains no raw newline.
pub proof fn lemma_enc_no_newline(p: RecView)
    ensures
        forall|j: int| 0 <= j < enc(p).len() ==> enc(p)[j] != '\n',
{
    lemma_esc_clean(p.0);
    lemma_esc_clean(p.1);
    assert forall|j: int| 0 <= j < enc(p).len() implies enc(p)[j] != '\n' by {
        let a = esc(p.0);
        let b = esc(p.1);
        if j < a.len() {
            assert(enc(p)[j] == a[j]);
        } else if j == a.len() {
            assert(enc(p)[j] == '\t');
        } else {
            assert(enc(p)[j] == b[j - a.len() - 1]);
        }
    }
}

/// Unescaping inverts escaping on a field.
pub proof fn lemma_unesc_esc(v: Seq<char>)
    ensures
        unesc(esc(v)) == Some(v),
    decreases v.len(),
{
    if v.len() == 0 {
        assert(esc(v).len() == 0);
    } else {
        lemma_unesc_esc(v.skip(1));
        let h = esc1(v[0]);
        let l = esc(v);
        assert(l == h + esc(v.skip(1)));
        if v[0] == '\\' || v[0] == '\n' || v[0] == '\t' {
            assert(h.len() == 2);
            assert(l[0] == '\\');
            assert(l.len() >= 2);
            assert(l[1] == h[1]);
            assert(esc_code(l[1]) == Some(v[0]));
            assert(l.skip(2) =~= esc(v.skip(1)));
            assert(seq![v[0]] + v.skip(1) =~= v);
        } else {
            assert(h.len() == 1);
            assert(l[0] == v[0]);
            assert(l.skip(1) =~= esc(v.skip(1)));
            assert(seq![v[0]] + v.skip(1) =~= v);
        }
    }
}

/// Decoding inverts encoding: the codec's round trip.
pub proof fn lemma_dec_enc(p: RecView)
    ensures
        dec_line(enc(p)) == Some(p),
    decreases p.0.len(),
{
    let k = p.0;
    let v = p.1;
    let l = enc(p);
    if k.len() == 0 {
        assert(esc(k).len() == 0);
        assert(l =~= seq!['\t'] + esc(v));
        assert(l[0] == '\t');
        assert(l.skip(1) =~= esc(v));
        lemma_unesc_esc(v);
        assert(Seq::<char>::empty() =~= k);
    } else {
        lemma_dec_enc((k.skip(1), v));
        let h = esc1(k[0]);
        assert(l =~= h + enc((k.skip(1), v))) by {
            assert(esc(k) == h + esc(k.skip(1)));
            assert(l =~= (h + esc(k.skip(1))) + seq!['\t'] + esc(v));
            assert(enc((k.skip(1), v)) == esc(k.skip(1)) + seq!['\t'] + esc(v));
        }
        let rest = enc((k.skip(1), v));
        if k[0] == '\\' || k[0] == '\n' || k[0] == '\t' {
            assert(h.len() == 2);
            assert(l[0] == '\\');
            assert(l.len() >= 2);
            assert(l[1] == h[1]);
            assert(esc_code(l[1]) == Some(k[0]));
            assert(l.skip(2) =~= rest);
            assert(seq![k[0]] + k.skip(1) =~= k);
        } else {
            assert(h.len() == 1);
            assert(l[0] == k[0]);
            assert(l[0] != '\t' && l[0] != '\n' && l[0] != '\\');
            assert(l.skip(1) =~= rest);
            assert(seq![k[0]] + k.skip(1) =~= k);
        }
    }
}

/// Prepend a key prefix to a partial parse.
pub open spec fn key_ctx(k: Seq<char>, r: Option<RecView>) -> Option<RecView> {
    match r {
        Some(p) => Some((k + p.0, p.1)),
        None => None,
    }
}

impl KVPair {
    /// The line this record encodes to, without its terminating newline.
    pub fn encode(&self) -> (r: String)
        ensures
            r@ == enc(self@),
    {
        let mut out = String::new();
        append_escaped(&mut out, self.key.as_str());
        out.push('\t');
        append_escaped(&mut out, self.value.as_str());
        proof {
            assert(out@ =~= enc(self@));
        }
        out
    }

    /// Decode one line. Succeeds exactly on lines that a record encodes
    /// to, and returns that record.
    pub fn decode(line: &str) -> (r: Result<KVPair, KvError>)
        ensures
            match r {
                Ok(kv) => dec_line(line@) == Some(kv@),
                Err(e) => dec_line(line@) is None && e == KvError::DecodeError,
            },
    {
        let n = line.unicode_len();
        let mut i: usize = 0;
        let mut key = String::new();
        proof {
            assert(line@.skip(0) =~= line@);
            let d = dec_line(line@);
            match d {
                Some(p) => {
                    assert(Seq::<char>::empty() + p.0 =~= p.0);
                },
                None => {},
            }
        }
        loop
            invariant_except_break
                i <= n,
                n == line@.len(),
                dec_line(line@) == key_ctx(key@, dec_line(line@.skip(i as int))),
            ensures
                i < n,
                n == line@.len(),
                line@[i as int] == '\t',
                dec_line(line@) == key_ctx(key@, dec_line(line@.skip(i as int))),
            decreases n - i,
        {
            if i == n {
                proof {
                    assert(line@.skip(i as int).len() == 0);
                }
                return Err(KvError::DecodeError);
            }
            let c = line.get_char(i);
            proof {
                assert(line@.skip(i as int)[0] == line@[i as int]);
            }
            if c == '\t' {
                break;
            } else if c == '\n' {
                return Err(KvError::DecodeError);
            } else if c == '\\' {
                if i + 1 == n {
                    proof {
                        assert(line@.skip(i as int).len() == 1);
                    }
                    return Err(KvError::DecodeError);
                }
                let e = line.get_char(i + 1);
                proof {
                    assert(line@.skip(i as int)[1] == line@[i + 1]);
                    assert(line@.skip(i as int).skip(2) =~= line@.skip(i + 2));
                }
                let decoded: char;
                if e == 'n' {
                    decoded = '\n';
                } else if e == 't' {
                    decoded = '\t';
                } else if e == '\\' {
                    decoded = '\\';
                } else {
                    return Err(KvError::DecodeError);
                }
                proof {
                    assert(esc_code(e) == Some(decoded));
                    let d2 = dec_line(line@.skip(i + 2));
                    match d2 {
                        Some(p) => {
                            assert(key@ + (seq![decoded] + p.0) =~= key@.push(decoded) + p.0);
                        },
                        None => {},
                    }
                }
                key.push(decoded);
                i = i + 2;
            } else {
                proof {
                    assert(line@.skip(i as int).skip(1) =~= line@.skip(i + 1));
                    let d2 = dec_line(line@.skip(i + 1));
                    match d2 {
                        Some(p) => {
                            assert(key@ + (seq![c] + p.0) =~= key@.push(c) + p.0);
                        },
                        None => {},
                    }
                }
                key.push(c);
                i = i + 1;
            }
        }
        // The key and its tab are consumed; the rest of the line is the value.
        proof {
            assert(line@.skip(i as int)[0] == line@[i as int]);
            assert(line@.skip(i as int).skip(1) =~= line@.skip(i + 1));
            let u = unesc(line@.skip(i + 1));
            match u {
                Some(t) => {
                    assert(key@ + Seq::<char>::empty() =~= key@);
                },
                None => {},
            }
        }
        i = i + 1;
        let mut val = String::new();
        proof {
            let u = unesc(line@.skip(i as int));
            match u {
                Some(t) => {
                    assert(val@ + t =~= t);
                },
                None => {},
            }
        }
        loop
            invariant
                i <= n,
                n == line@.len(),
                dec_line(line@) == match unesc(line@.skip(i as int)) {
                    Some(t) => Some((key@, val@ + t)),
                    None => None,
                },
            decreases n - i,
        {
            if i == n {
                proof {
                    assert(line@.skip(i as int).len() == 0);
                    assert(val@ + Seq::<char>::empty() =~= val@);
                }
                return Ok(KVPair { key, value: val });
            }
            let c = line.get_char(i);
            proof {
                assert(line@.skip(i as int)[0] == line@[i as int]);
            }
            if c == '\t' || c == '\n' {
                return Err(KvError::DecodeError);
            } else if c == '\\' {
                if i + 1 == n {
                    proof {
                        assert(line@.skip(i as int).len() == 1);
                    }
                    return Err(KvError::DecodeError);
                }
                let e = line.get_char(i + 1);
                proof {
                    assert(line@.skip(i as int)[1] == line@[i + 1]);
                    assert(line@.skip(i as int).skip(2) =~= line@.skip(i + 2));
                }
                let decoded: char;
                if e == 'n' {
                    decoded = '\n';
                } else if e == 't' {
                    decoded = '\t';
                } else if e == '\\' {
                    decoded = '\\';
                } else {
                    return Err(KvError::DecodeError);
                }
                proof {
                    assert(esc_code(e) == Some(decoded));
                    let u2 = unesc(line@.skip(i + 2));
                    match u2 {
                        Some(t) => {
                            assert(val@ + (seq![decoded] + t) =~= val@.push(decoded) + t);
                        },
                        None => {},
                    }
                }
                val.push(decoded);
                i = i + 2;
            } else {
                proof {
                    assert(line@.skip(i as int).skip(1) =~= line@.skip(i + 1));
                    let u2 = unesc(line@.skip(i + 1));
                    match u2 {
                        Some(t) => {
                            assert(val@ + (seq![c] + t) =~= val@.push(c) + t);
                        },
                        None => {},
                    }
                }
                val.push(c);
                i = i + 1;
            }
        }
    }
}

/// Append the escaped form of `s` to `out`.
fn append_escaped(out: &mut String, s: &str)
    ensures
        final(out)@ == old(out)@ + esc(s@),
{
    let n = s.unicode_len();
    let mut i: usize = 0;
    proof {
        assert(s@.take(0) =~= Seq::<char>::empty());
        assert(esc(s@.take(0)) =~= Seq::<char>::empty());
        assert(old(out)@ + Seq::<char>::empty() =~= old(out)@);
    }
    while i < n
        invariant
            i <= n,
            n == s@.len(),
            out@ == old(out)@ + esc(s@.take(i as int)),
        decreases n - i,
    {
        let c = s.get_char(i);
        if c == '\\' {
            out.push('\\');
            out.push('\\');
        } else if c == '\n' {
            out.push('\\');
            out.push('n');
        } else if c == '\t' {
            out.push('\\');
            out.push('t');
        } else {
            out.push(c);
        }
        proof {
            lemma_esc_append(s@.take(i as int), seq![s@[i as int]]);
            assert(s@.take(i + 1) =~= s@.take(i as int) + seq![s@[i as int]]);
            assert(seq![s@[i as int]].skip(1) =~= Seq::<char>::empty());
            assert(esc(Seq::<char>::empty()) == Seq::<char>::empty());
            assert(esc(seq![s@[i as int]]) == esc1(s@[i as int]) + esc(Seq::<char>::empty()));
            assert(esc1(s@[i as int]) + Seq::<char>::empty() =~= esc1(s@[i as int]));
            assert(out@ =~= old(out)@ + esc(s@.take(i + 1)));
        }
        i = i + 1;
    }
    proof {
        assert(s@.take(n as int) =~= s@);
    }
}

/// Escaping a concatenation escapes each part.
pub proof fn lemma_esc_append(a: Seq<char>, b: Seq<char>)
    ensures
        esc(a + b) == esc(a) + esc(b),
    decreases a.len(),
{
    if a.len() == 0 {
        assert(a + b =~= b);
        assert(esc(a) + esc(b) =~= esc(b));
    } else {
        lemma_esc_append(a.skip(1), b);
        assert((a + b).skip(1) =~= a.skip(1) + b);
        assert((a + b)[0] == a[0]);
        assert(esc(a + b) == esc1(a[0]) + esc(a.skip(1) + b));
        assert(esc1(a[0]) + (esc(a.skip(1)) + esc(b)) =~= (esc1(a[0]) + esc(a.skip(1))) + esc(b));
    }
}

} // verus!

verus! {

/// A file of records: each record's line, terminated by a newline.
pub open spec fn render_spec(rs: Seq<RecView>) -> Seq<char>
    decreases rs.len(),
{
    if rs.len() == 0 {
        Seq::empty()
    } else {
        enc(rs[0]) + seq!['\n'] + render_spec(rs.skip(1))
    }
}

/// The first newline at or after `i`.
pub open spec fn find_nl(t: Seq<char>, i: int) -> Option<int>
    decreases t.len() - i,
{
    if i < 0 || i >= t.len() {
        None
    } else if t[i] == '\n' {
        Some(i)
    } else {
        find_nl(t, i + 1)
    }
}

/// Parse a whole file of newline-terminated record lines; `None` if
/// any line is malformed or the last line is unterminated.
pub open spec fn parse_lines(t: Seq<char>) -> Option<Seq<RecView>>
    decreases t.len(),
{
    if t.len() == 0 {
        Some(Seq::empty())
    } else {
        match find_nl(t, 0) {
            None => None,
            Some(j) => if j < 0 || j >= t.len() {
                None
            } else {
                match dec_line(t.subrange(0, j)) {
                    None => None,
                    Some(p) => match parse_lines(t.skip(j + 1)) {
                        None => None,
                        Some(rest) => Some(seq![p] + rest),
                    },
                }
            },
        }
    }
}

pub proof fn lemma_find_nl_at(t: Seq<char>, i: int, m: int)
    requires
        0 <= i <= m < t.len(),
        forall|q: int| i <= q < m ==> t[q] != '\n',
        t[m] == '\n',
    ensures
        find_nl(t, i) == Some(m),
    decreases m - i,
{
    if i < m {
        lemma_find_nl_at(t, i + 1, m);
    }
}

pub proof fn lemma_find_nl_absent(t: Seq<char>, i: int)
    requires
        0 <= i,
        forall|q: int| i <= q < t.len() ==> t[q] != '\n',
    ensures
        find_nl(t, i) is None,
    decreases t.len() - i,
{
    if i < t.len() {
        lemma_find_nl_absent(t, i + 1);
    }
}

/// Rendering a concatenation renders each part.
pub proof fn lemma_render_append(a: Seq<RecView>, b: Seq<RecView>)
    ensures
        render_spec(a + b) == render_spec(a) + render_spec(b),
    decreases a.len(),
{
    if a.len() == 0 {
        assert(a + b =~= b);
        assert(render_spec(a) + render_spec(b) =~= render_spec(b));
    } else {
        lemma_render_append(a.skip(1), b);
        assert((a + b).skip(1) =~= a.skip(1) + b);
        assert((a + b)[0] == a[0]);
        assert(render_spec(a + b) == enc(a[0]) + seq!['\n'] + (render_spec(a.skip(1))
            + render_spec(b)));
        assert(enc(a[0]) + seq!['\n'] + (render_spec(a.skip(1)) + render_spec(b)) =~= (enc(a[0])
            + seq!['\n'] + render_spec(a.skip(1))) + render_spec(b));
    }
}

/// Parsing inverts rendering: the file round trip.
pub proof fn lemma_parse_render(rs: Seq<RecView>)
    ensures
        parse_lines(render_spec(rs)) == Some(rs),
    decreases rs.len(),
{
    if rs.len() == 0 {
    } else {
        lemma_parse_render(rs.skip(1));
        let line = enc(rs[0]);
        let rest = render_spec(rs.skip(1));
        let t = render_spec(rs);
        assert(t == line + seq!['\n'] + rest);
        lemma_enc_no_newline(rs[0]);
        assert(t.len() == line.len() + 1 + rest.len());
        assert(t[line.len() as int] == '\n');
        assert forall|q: int| 0 <= q < line.len() implies t[q] != '\n' by {
            assert(t[q] == line[q]);
        }
        assert(t.len() > 0);
        lemma_find_nl_at(t, 0, line.len() as int);
        assert(t.subrange(0, line.len() as int) =~= line);
        lemma_dec_enc(rs[0]);
        assert(t.skip(line.len() as int + 1) =~= rest);
        assert(seq![rs[0]] + rs.skip(1) =~= rs);
    }
}

/// Render a list of records as a file's text, one line per record.
pub fn render_records(records: &Vec<KVPair>) -> (r: String)
    ensures
        r@ == render_spec(records@.map_values(|kv: KVPair| kv@)),
{
    let ghost rv = records@.map_values(|kv: KVPair| kv@);
    let mut out = String::new();
    proof {
        assert(rv.subrange(0, 0) =~= Seq::<RecView>::empty());
        assert(out@ =~= render_spec(rv.subrange(0, 0)));
    }
    let n = records.len();
    let mut i: usize = 0;
    while i < n
        invariant
            i <= n,
            n == records@.len(),
            rv == records@.map_values(|kv: KVPair| kv@),
            out@ == render_spec(rv.subrange(0, i as int)),
        decreases n - i,
    {
        let line = records[i].encode();
        out.append(line.as_str());
        out.push('\n');
        proof {
            assert(rv[i as int] == records@[i as int]@);
            lemma_render_append(rv.subrange(0, i as int), seq![rv[i as int]]);
            assert(rv.subrange(0, i + 1) =~= rv.subrange(0, i as int) + seq![rv[i as int]]);
            assert(seq![rv[i as int]].skip(1) =~= Seq::<RecView>::empty());
            assert(render_spec(Seq::<RecView>::empty()) == Seq::<char>::empty());
            assert(render_spec(seq![rv[i as int]]) == enc(rv[i as int]) + seq!['\n']
                + Seq::<char>::empty());
            assert(render_spec(seq![rv[i as int]]) =~= enc(rv[i as int]) + seq!['\n']);
            assert(out@ =~= render_spec(rv.subrange(0, i + 1)));
        }
        i = i + 1;
    }
    proof {
        assert(rv.subrange(0, n as int) =~= rv);
    }
    out
}

/// Prepend already-parsed records to a partial parse of the rest.
pub open spec fn lines_ctx(acc: Seq<RecView>, r: Option<Seq<RecView>>) -> Option<Seq<RecView>> {
    match r {
        Some(rest) => Some(acc + rest),
        None => None,
    }
}

/// Parse a file's text back into its records. Succeeds exactly on
/// texts that a record list renders to, and returns that list.
pub fn parse_records(text: &str) -> (r: Result<Vec<KVPair>, KvError>)
    ensures
        match r {
            Ok(v) => parse_lines(text@) == Some(v@.map_values(|kv: KVPair| kv@)),
            Err(e) => parse_lines(text@) is None && e == KvError::DecodeError,
        },
{
    let n = text.unicode_len();
    let mut out: Vec<KVPair> = Vec::new();
    let mut i: usize = 0;
    proof {
        assert(text@.skip(0) =~= text@);
        assert(out@.map_values(|kv: KVPair| kv@) =~= Seq::<RecView>::empty());
        let p0 = parse_lines(text@);
        match p0 {
            Some(rest) => {
                assert(Seq::<RecView>::empty() + rest =~= rest);
            },
            None => {},
        }
    }
    while i < n
        invariant
            i <= n,
            n == text@.len(),
            parse_lines(text@) == lines_ctx(
                out@.map_values(|kv: KVPair| kv@),
                parse_lines(text@.skip(i as int)),
            ),
        decreases n - i,
    {
        // scan this line for its terminating newline
        let mut j: usize = i;
        let mut found = false;
        while j < n && !found
            invariant
                i <= j <= n,
                n == text@.len(),
                forall|q: int| i <= q < j ==> text@[q] != '\n',
                found ==> j < n && text@[j as int] == '\n',
            decreases n - j + if found {
                0int
            } else {
                1int
            },
        {
            if text.get_char(j) == '\n' {
                found = true;
            } else {
                j = j + 1;
            }
        }
        if !found {
            proof {
                let t2 = text@.skip(i as int);
                assert forall|q: int| 0 <= q < t2.len() implies t2[q] != '\n' by {
                    assert(t2[q] == text@[q + i]);
                }
                lemma_find_nl_absent(t2, 0);
                assert(t2.len() > 0);
                assert(parse_lines(t2) is None);
            }
            return Err(KvError::DecodeError);
        }
        let line = text.substring_char(i, j);
        proof {
            let t2 = text@.skip(i as int);
            assert forall|q: int| 0 <= q < j - i implies t2[q] != '\n' by {
                assert(t2[q] == text@[q + i]);
            }
            assert(t2[j - i] == text@[j as int]);
            lemma_find_nl_at(t2, 0, j - i);
            assert(line@ =~= t2.subrange(0, j - i));
        }
        let kv = match KVPair::decode(line) {
            Ok(kv) => kv,
            Err(e) => {
                proof {
                    let t2 = text@.skip(i as int);
                    assert(parse_lines(t2) is None);
                }
                return Err(KvError::DecodeError);
            },
        };
        proof {
            let t2 = text@.skip(i as int);
            let acc = out@.map_values(|x: KVPair| x@);
            assert(t2.skip(j - i + 1) =~= text@.skip(j + 1));
            assert(parse_lines(t2) == match parse_lines(text@.skip(j + 1)) {
                None => None::<Seq<RecView>>,
                Some(rest) => Some(seq![kv@] + rest),
            });
            match parse_lines(text@.skip(j + 1)) {
                Some(rest) => {
                    assert(acc + (seq![kv@] + rest) =~= acc.push(kv@) + rest);
                },
                None => {},
            }
        }
        let ghost prev_out = out@;
        out.push(kv);
        proof {
            assert(out@.map_values(|x: KVPair| x@) =~= prev_out.map_values(
                |x: KVPair| x@,
            ).push(out@.last()@));
        }
        i = j + 1;
    }
    proof {
        assert(text@.skip(n as int).len() == 0);
        let acc = out@.map_values(|x: KVPair| x@);
        assert(acc + Seq::<RecView>::empty() =~= acc);
    }
    Ok(out)
}

} // verus!
