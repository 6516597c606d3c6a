//! HTTP header lists with case-insensitive names, and comma-separated tokens.

use vstd::prelude::*;
use vstd::slice::{slice_subrange, slice_to_vec};

verus! {

/// ASCII lower case of one byte.
pub open spec fn lower(b: u8) -> u8 {
    if 65 <= b <= 90 {
        (b + 32) as u8
    } else {
        b
    }
}

pub open spec fn lowered(s: Seq<u8>) -> Seq<u8> {
    s.map_values(|b: u8| lower(b))
}

/// Equal but for ASCII case.
pub open spec fn same_name(a: Seq<u8>, b: Seq<u8>) -> bool {
    lowered(a) == lowered(b)
}

fn lower_byte(b: u8) -> (r: u8)
    ensures
        r == lower(b),
{
    if 65 <= b && b <= 90 {
        b + 32
    } else {
        b
    }
}

/// Compares two byte strings ignoring ASCII case.
pub fn eq_ignore_case(a: &[u8], b: &[u8]) -> (r: bool)
    ensures
        r == same_name(a@, b@),
{
    if a.len() != b.len() {
        assert(lowered(a@).len() != lowered(b@).len());
        return false;
    }
    let n = a.len();
    let mut i: usize = 0;
    while i < n
        invariant
            i <= n,
            n == a@.len(),
            n == b@.len(),
            forall|j: int| 0 <= j < i ==> lower(a@[j]) == lower(b@[j]),
        decreases n - i,
    {
        if lower_byte(a[i]) != lower_byte(b[i]) {
            assert(lowered(a@)[i as int] != lowered(b@)[i as int]);
            return false;
        }
        i = i + 1;
    }
    assert(lowered(a@) =~= lowered(b@));
    true
}

pub type HeaderModel = Seq<(Seq<u8>, Seq<u8>)>;

/// The value of the first entry named `name`.
pub open spec fn lookup(hs: HeaderModel, name: Seq<u8>) -> Option<Seq<u8>>
    decreases hs.len(),
{
    if hs.len() == 0 {
        None
    } else if same_name(hs[0].0, name) {
        Some(hs[0].1)
    } else {
        lookup(hs.skip(1), name)
    }
}

/// The entries not named `name`, in their order.
pub open spec fn without(hs: HeaderModel, name: Seq<u8>) -> HeaderModel
    decreases hs.len(),
{
    if hs.len() == 0 {
        hs
    } else {
        let r = without(hs.drop_last(), name);
        if same_name(hs.last().0, name) {
            r
        } else {
            r.push(hs.last())
        }
    }
}

/// An ordered list of header entries; names compare without regard to ASCII case.
#[derive(Clone, Debug)]
pub struct Headers {
    pub entries: Vec<(Vec<u8>, Vec<u8>)>,
}

pub open spec fn entry_views(v: Seq<(Vec<u8>, Vec<u8>)>) -> HeaderModel {
    v.map_values(|e: (Vec<u8>, Vec<u8>)| (e.0@, e.1@))
}

impl View for Headers {
    type V = HeaderModel;

    open spec fn view(&self) -> HeaderModel {
        entry_views(self.entries@)
    }
}

fn copy_bytes(b: &[u8]) -> (r: Vec<u8>)
    ensures
        r@ == b@,
{
    slice_to_vec(b)
}

impl Headers {
    pub fn new() -> (r: Headers)
        ensures
            r@ == Seq::<(Seq<u8>, Seq<u8>)>::empty(),
    {
        let r = Headers { entries: Vec::new() };
        assert(r@ =~= Seq::<(Seq<u8>, Seq<u8>)>::empty());
        r
    }

    /// The value of the first entry named `name`.
    pub fn get(&self, name: &[u8]) -> (r: Option<Vec<u8>>)
        ensures
            match r {
                Some(v) => lookup(self@, name@) == Some(v@),
                None => lookup(self@, name@) is None,
            },
    {
        let n = self.entries.len();
        let mut i: usize = 0;
        assert(self@.skip(0) =~= self@);
        while i < n
            invariant
                i <= n,
                n == self.entries@.len(),
                lookup(self@.skip(i as int), name@) == lookup(self@, name@),
            decreases n - i,
        {
            let ghost rest = self@.skip(i as int);
            assert(rest[0] == (self.entries@[i as int].0@, self.entries@[i as int].1@));
            assert(rest.skip(1) =~= self@.skip(i + 1));
            if eq_ignore_case(self.entries[i].0.as_slice(), name) {
                return Some(copy_bytes(self.entries[i].1.as_slice()));
            }
            i = i + 1;
        }
        None
    }

    /// Removes every entry named `name`.
    pub fn remove(&mut self, name: &[u8])
        ensures
            final(self)@ == without(old(self)@, name@),
    {
        let ghost hs = self@;
        let n = self.entries.len();
        let mut kept: Vec<(Vec<u8>, Vec<u8>)> = Vec::new();
        let mut i: usize = 0;
        while i < n
            invariant
                i <= n,
                n == self.entries@.len(),
                hs == self@,
                entry_views(kept@) == without(hs.take(i as int), name@),
            decreases n - i,
        {
            assert(hs.take(i + 1).drop_last() =~= hs.take(i as int));
            assert(hs.take(i + 1).last() == hs[i as int]);
            if !eq_ignore_case(self.entries[i].0.as_slice(), name) {
                let e = (
                    copy_bytes(self.entries[i].0.as_slice()),
                    copy_bytes(self.entries[i].1.as_slice()),
                );
                let ghost before = kept@;
                kept.push(e);
                assert(entry_views(kept@) =~= entry_views(before).push(hs[i as int]));
            }
            i = i + 1;
        }
        assert(hs.take(n as int) =~= hs);
        self.entries = kept;
    }

    /// Sets `name` to `value` alone, dropping earlier entries of that name.
    pub fn insert(&mut self, name: &[u8], value: &[u8])
        ensures
            final(self)@ == without(old(self)@, name@).push((name@, value@)),
    {
        self.remove(name);
        let ghost before = self.entries@;
        self.entries.push((copy_bytes(name), copy_bytes(value)));
        assert(entry_views(self.entries@) =~= entry_views(before).push((name@, value@)));
    }
}

pub open spec fn is_space(b: u8) -> bool {
    b == 32 || b == 9
}

pub open spec fn trim_start(s: Seq<u8>) -> Seq<u8>
    decreases s.len(),
{
    if s.len() > 0 && is_space(s[0]) {
        trim_start(s.skip(1))
    } else {
        s
    }
}

pub open spec fn trim_end(s: Seq<u8>) -> Seq<u8>
    decreases s.len(),
{
    if s.len() > 0 && is_space(s.last()) {
        trim_end(s.drop_last())
    } else {
        s
    }
}

/// `s` without leading and trailing spaces and tabs.
pub open spec fn trim(s: Seq<u8>) -> Seq<u8> {
    trim_end(trim_start(s))
}

/// The pieces of `s` between commas, `cur` being the piece begun so far.
pub open spec fn split_from(s: Seq<u8>, cur: Seq<u8>) -> Seq<Seq<u8>>
    decreases s.len(),
{
    if s.len() == 0 {
        seq![cur]
    } else if s[0] == 44 {
        seq![cur] + split_from(s.skip(1), Seq::empty())
    } else {
        split_from(s.skip(1), cur.push(s[0]))
    }
}

/// The comma-separated elements of a header value, trimmed.
pub open spec fn tokens(s: Seq<u8>) -> Seq<Seq<u8>> {
    split_from(s, Seq::empty()).map_values(|t: Seq<u8>| trim(t))
}

/// Whether `tok` is one of the elements of the list `v`, ignoring ASCII case.
pub open spec fn has_token(v: Seq<u8>, tok: Seq<u8>) -> bool {
    exists|k: int| 0 <= k < tokens(v).len() && same_name(#[trigger] tokens(v)[k], tok)
}

fn is_space_byte(b: u8) -> (r: bool)
    ensures
        r == is_space(b),
{
    b == 32 || b == 9
}

/// `s` with leading and trailing spaces and tabs removed.
pub fn trimmed(s: &[u8]) -> (r: Vec<u8>)
    ensures
        r@ == trim(s@),
{
    let n = s.len();
    let mut i: usize = 0;
    assert(s@.skip(0) =~= s@);
    while i < n && is_space_byte(s[i])
        invariant
            i <= n,
            n == s@.len(),
            trim_start(s@.skip(i as int)) == trim_start(s@),
        decreases n - i,
    {
        assert(s@.skip(i as int).skip(1) =~= s@.skip(i + 1));
        i = i + 1;
    }
    let ghost st = s@.skip(i as int);
    assert(trim_start(st) == st);
    let mut j: usize = n;
    assert(st.take((j - i) as int) =~= st);
    while j > i && is_space_byte(s[j - 1])
        invariant
            i <= j <= n,
            n == s@.len(),
            st == s@.skip(i as int),
            trim_end(st.take((j - i) as int)) == trim_end(st),
        decreases j,
    {
        assert(st.take((j - i) as int).drop_last() =~= st.take((j - 1 - i) as int));
        j = j - 1;
    }
    assert(s@.subrange(i as int, j as int) =~= st.take((j - i) as int));
    slice_to_vec(slice_subrange(s, i, j))
}

/// The comma-separated elements of `s`, trimmed.
pub fn split_tokens(s: &[u8]) -> (r: Vec<Vec<u8>>)
    ensures
        r@.map_values(|t: Vec<u8>| t@) == tokens(s@),
{
    let n = s.len();
    let mut out: Vec<Vec<u8>> = Vec::new();
    let mut start: usize = 0;
    let mut i: usize = 0;
    let ghost pieces: Seq<Seq<u8>> = Seq::empty();
    assert(s@.skip(0) =~= s@);
    assert(s@.subrange(0, 0) =~= Seq::<u8>::empty());
    while i < n
        invariant
            start <= i <= n,
            n == s@.len(),
            pieces + split_from(s@.skip(i as int), s@.subrange(start as int, i as int))
                == split_from(s@, Seq::empty()),
            out@.map_values(|t: Vec<u8>| t@) == pieces.map_values(|t: Seq<u8>| trim(t)),
        decreases n - i,
    {
        let ghost rest = s@.skip(i as int);
        let ghost cur = s@.subrange(start as int, i as int);
        assert(rest.skip(1) =~= s@.skip(i + 1));
        assert(rest[0] == s@[i as int]);
        if s[i] == 44 {
            let t = trimmed(slice_subrange(s, start, i));
            let ghost before = out@;
            out.push(t);
            proof {
                assert(seq![cur] + split_from(rest.skip(1), Seq::empty()) == split_from(rest, cur));
                assert(pieces + (seq![cur] + split_from(rest.skip(1), Seq::empty())) =~= pieces.push(
                    cur,
                ) + split_from(rest.skip(1), Seq::empty()));
                pieces = pieces.push(cur);
                assert(s@.subrange(i + 1, i + 1) =~= Seq::<u8>::empty());
                assert(out@.map_values(|t: Vec<u8>| t@) =~= before.map_values(|t: Vec<u8>| t@).push(
                    trim(cur),
                ));
                assert(pieces.map_values(|t: Seq<u8>| trim(t)) =~= pieces.drop_last().map_values(
                    |t: Seq<u8>| trim(t),
                ).push(trim(cur)));
                assert(pieces.drop_last() =~= pieces.take(pieces.len() - 1));
            }
            i = i + 1;
            start = i;
        } else {
            assert(cur.push(s@[i as int]) =~= s@.subrange(start as int, i + 1));
            i = i + 1;
        }
    }
    let ghost cur = s@.subrange(start as int, n as int);
    assert(s@.skip(n as int) =~= Seq::<u8>::empty());
    let t = trimmed(slice_subrange(s, start, n));
    let ghost before = out@;
    out.push(t);
    proof {
        assert(pieces + seq![cur] == split_from(s@, Seq::empty()));
        assert(out@.map_values(|t: Vec<u8>| t@) =~= before.map_values(|t: Vec<u8>| t@).push(
            trim(cur),
        ));
        assert((pieces + seq![cur]).map_values(|t: Seq<u8>| trim(t)) =~= pieces.map_values(
            |t: Seq<u8>| trim(t),
        ).push(trim(cur)));
    }
    out
}

/// Whether `tok` is one of the comma-separated elements of `v`, ignoring ASCII case.
pub fn contains_token(v: &[u8], tok: &[u8]) -> (r: bool)
    ensures
        r == has_token(v@, tok@),
{
    let ts = split_tokens(v);
    let n = ts.len();
    let mut i: usize = 0;
    while i < n
        invariant
            i <= n,
            n == ts@.len(),
            ts@.map_values(|t: Vec<u8>| t@) == tokens(v@),
            forall|k: int| 0 <= k < i ==> !same_name(#[trigger] tokens(v@)[k], tok@),
        decreases n - i,
    {
        assert(tokens(v@)[i as int] == ts@[i as int]@);
        if eq_ignore_case(ts[i].as_slice(), tok) {
            return true;
        }
        i = i + 1;
    }
    false
}


/// The part of `t` before its first semicolon.
pub open spec fn before_semicolon(t: Seq<u8>) -> Seq<u8>
    decreases t.len(),
{
    if t.len() == 0 || t[0] == 59 {
        Seq::empty()
    } else {
        seq![t[0]] + before_semicolon(t.skip(1))
    }
}

/// The name of an extension element: what precedes its parameters, trimmed.
pub open spec fn extension_name(t: Seq<u8>) -> Seq<u8> {
    trim(before_semicolon(t))
}

/// Whether the extension list `offered` names the extension `name`.
pub open spec fn names_extension(offered: Seq<u8>, name: Seq<u8>) -> bool {
    exists|k: int|
        0 <= k < tokens(offered).len() && same_name(
            #[trigger] extension_name(tokens(offered)[k]),
            name,
        )
}

/// Whether every extension of the list `chosen` is named in the list `offered`.
pub open spec fn extensions_offered(chosen: Seq<u8>, offered: Seq<u8>) -> bool {
    forall|k: int|
        0 <= k < tokens(chosen).len() ==> names_extension(
            offered,
            #[trigger] extension_name(tokens(chosen)[k]),
        )
}

fn name_of_extension(t: &[u8]) -> (r: Vec<u8>)
    ensures
        r@ == extension_name(t@),
{
    let n = t.len();
    let mut i: usize = 0;
    assert(t@.take(0) + t@.skip(0) =~= t@);
    assert(t@.take(0) + before_semicolon(t@.skip(0)) =~= before_semicolon(t@));
    while i < n && t[i] != 59
        invariant
            i <= n,
            n == t@.len(),
            before_semicolon(t@) == t@.take(i as int) + before_semicolon(t@.skip(i as int)),
        decreases n - i,
    {
        let ghost rest = t@.skip(i as int);
        assert(rest[0] == t@[i as int]);
        assert(rest.skip(1) =~= t@.skip(i + 1));
        assert(t@.take(i + 1) =~= t@.take(i as int) + seq![t@[i as int]]);
        assert(t@.take(i as int) + (seq![t@[i as int]] + before_semicolon(t@.skip(i + 1)))
            =~= t@.take(i + 1) + before_semicolon(t@.skip(i + 1)));
        i = i + 1;
    }
    assert(before_semicolon(t@.skip(i as int)) =~= Seq::<u8>::empty());
    assert(t@.take(i as int) + Seq::<u8>::empty() =~= t@.take(i as int));
    assert(t@.subrange(0, i as int) =~= t@.take(i as int));
    trimmed(slice_subrange(t, 0, i))
}

/// Whether every extension of the list `chosen` is named in the list `offered`.
pub fn all_extensions_offered(chosen: &[u8], offered: &[u8]) -> (r: bool)
    ensures
        r == extensions_offered(chosen@, offered@),
{
    let cs = split_tokens(chosen);
    let os = split_tokens(offered);
    let mut names: Vec<Vec<u8>> = Vec::new();
    let m = os.len();
    let mut j: usize = 0;
    while j < m
        invariant
            j <= m,
            m == os@.len(),
            os@.map_values(|t: Vec<u8>| t@) == tokens(offered@),
            names@.len() == j,
            forall|k: int| 0 <= k < j ==> names@[k]@ == extension_name(tokens(offered@)[k]),
        decreases m - j,
    {
        assert(os@[j as int]@ == tokens(offered@)[j as int]);
        names.push(name_of_extension(os[j].as_slice()));
        j = j + 1;
    }
    let n = cs.len();
    let mut i: usize = 0;
    while i < n
        invariant
            i <= n,
            n == cs@.len(),
            m == names@.len(),
            m == tokens(offered@).len(),
            cs@.map_values(|t: Vec<u8>| t@) == tokens(chosen@),
            forall|k: int| 0 <= k < m ==> names@[k]@ == extension_name(tokens(offered@)[k]),
            forall|k: int|
                0 <= k < i ==> names_extension(
                    offered@,
                    #[trigger] extension_name(tokens(chosen@)[k]),
                ),
        decreases n - i,
    {
        assert(cs@[i as int]@ == tokens(chosen@)[i as int]);
        let name = name_of_extension(cs[i].as_slice());
        let mut found = false;
        let mut j: usize = 0;
        while j < m
            invariant
                j <= m,
                m == names@.len(),
                m == tokens(offered@).len(),
                forall|k: int| 0 <= k < m ==> names@[k]@ == extension_name(tokens(offered@)[k]),
                found ==> names_extension(offered@, name@),
                !found ==> forall|k: int| 0 <= k < j ==> !same_name(#[trigger] names@[k]@, name@),
            decreases m - j,
        {
            if eq_ignore_case(names[j].as_slice(), name.as_slice()) {
                assert(same_name(extension_name(tokens(offered@)[j as int]), name@));
                found = true;
            }
            j = j + 1;
        }
        if !found {
            assert forall|k: int| 0 <= k < m implies !same_name(
                #[trigger] extension_name(tokens(offered@)[k]),
                name@,
            ) by {
                assert(names@[k]@ == extension_name(tokens(offered@)[k]));
                assert(!same_name(names@[k]@, name@));
            }
            return false;
        }
        i = i + 1;
    }
    true
}

} // verus!
