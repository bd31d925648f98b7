//! Normalized names of packages, dependency groups and extras.
//!
//! A name is kept in its normal form: lower-case ASCII letters and digits,
//! with single `-` characters between them. Two spellings that differ only in
//! case, or in which of `-`, `_` and `.` separates their parts, give the same
//! name. Names are compared and ordered by their UTF-8 bytes.

use vstd::prelude::*;
use vstd::string::*;
use vstd::utf8::*;

verus! {

/// An ASCII letter or digit.
pub open spec fn is_alnum(b: u8) -> bool {
    (0x30 <= b <= 0x39) || (0x41 <= b <= 0x5a) || (0x61 <= b <= 0x7a)
}

/// One of the three separators `-`, `_` and `.`.
pub open spec fn is_separator(b: u8) -> bool {
    b == 0x2d || b == 0x5f || b == 0x2e
}

/// The lower-case form of an ASCII byte.
pub open spec fn lower(b: u8) -> u8 {
    if 0x41 <= b <= 0x5a {
        (b + 32) as u8
    } else {
        b
    }
}

/// A spelling that names something: not empty, made of letters, digits and
/// separators only, and with a letter or digit at both ends.
pub open spec fn is_valid_name(raw: Seq<u8>) -> bool {
    &&& raw.len() > 0
    &&& forall|i: int| 0 <= i < raw.len() ==> is_alnum(#[trigger] raw[i]) || is_separator(raw[i])
    &&& is_alnum(raw[0])
    &&& is_alnum(raw[raw.len() - 1])
}

/// The normal form of a spelling: letters in lower case, and each run of
/// separators replaced by one `-`.
pub open spec fn normal_form(raw: Seq<u8>) -> Seq<u8>
    decreases raw.len(),
{
    if raw.len() == 0 {
        Seq::empty()
    } else {
        let init = normal_form(raw.drop_last());
        let b = raw.last();
        if !is_separator(b) {
            init.push(lower(b))
        } else if raw.len() >= 2 && is_separator(raw[raw.len() - 2]) {
            init
        } else {
            init.push(0x2du8)
        }
    }
}

/// A spelling that is its own normal form.
pub open spec fn is_normalized(name: Seq<u8>) -> bool {
    &&& name.len() > 0
    &&& forall|i: int|
        0 <= i < name.len() ==> (0x30 <= #[trigger] name[i] <= 0x39) || (0x61 <= name[i] <= 0x7a)
            || name[i] == 0x2d
    &&& forall|i: int|
        0 <= i < name.len() - 1 ==> !(#[trigger] name[i] == 0x2d && name[i + 1] == 0x2d)
    &&& name[0] != 0x2d
    &&& name[name.len() - 1] != 0x2d
}

/// The spelling with its letters in lower case.
pub open spec fn lower_case(raw: Seq<u8>) -> Seq<u8> {
    raw.map_values(|b: u8| lower(b))
}

/// The case of the letters makes no difference to a name: a spelling and
/// its lower-case form are valid together and have the same normal form.
pub proof fn lemma_case_is_ignored(raw: Seq<u8>)
    ensures
        is_valid_name(lower_case(raw)) <==> is_valid_name(raw),
        normal_form(lower_case(raw)) == normal_form(raw),
    decreases raw.len(),
{
    let low = lower_case(raw);
    assert forall|i: int| 0 <= i < raw.len() implies (is_alnum(#[trigger] low[i]) <==> is_alnum(
        raw[i],
    )) && (is_separator(low[i]) <==> is_separator(raw[i])) by {}
    if is_valid_name(raw) {
        assert forall|i: int| 0 <= i < low.len() implies is_alnum(#[trigger] low[i])
            || is_separator(low[i]) by {
            assert(is_alnum(raw[i]) || is_separator(raw[i]));
        }
    }
    if is_valid_name(low) {
        assert forall|i: int| 0 <= i < raw.len() implies is_alnum(#[trigger] raw[i])
            || is_separator(raw[i]) by {
            assert(is_alnum(low[i]) || is_separator(low[i]));
        }
    }
    if raw.len() > 0 {
        lemma_case_is_ignored(raw.drop_last());
        assert(low.drop_last() =~= lower_case(raw.drop_last()));
    }
}

/// A name in normal form is a valid spelling, and its own normal form.
pub proof fn lemma_normalized_is_fixed(name: Seq<u8>)
    requires
        is_normalized(name),
    ensures
        is_valid_name(name),
        normal_form(name) == name,
{
    lemma_normal_prefix_is_fixed(name, name.len() as int);
    assert(name.take(name.len() as int) =~= name);
}

/// The first `k` bytes of a name in normal form are their own normal form.
proof fn lemma_normal_prefix_is_fixed(name: Seq<u8>, k: int)
    requires
        is_normalized(name),
        0 <= k <= name.len(),
    ensures
        normal_form(name.take(k)) == name.take(k),
    decreases k,
{
    if k > 0 {
        lemma_normal_prefix_is_fixed(name, k - 1);
        let prefix = name.take(k);
        assert(prefix.drop_last() =~= name.take(k - 1));
        assert(prefix.last() == name[k - 1]);
        if k >= 2 {
            assert(prefix[prefix.len() - 2] == name[k - 2]);
            assert(!(name[k - 2] == 0x2d && name[k - 2 + 1] == 0x2d));
        }
        assert(name.take(k - 1).push(name[k - 1]) =~= prefix);
    } else {
        assert(name.take(0) =~= Seq::<u8>::empty());
    }
}

/// `a` and `b` agree before position `k`, where `a` ends or holds the smaller byte.
pub open spec fn less_at(a: Seq<u8>, b: Seq<u8>, k: int) -> bool {
    &&& 0 <= k <= a.len()
    &&& k < b.len()
    &&& forall|j: int| 0 <= j < k ==> a[j] == b[j]
    &&& k < a.len() ==> a[k] < b[k]
}

/// The order of names: lexicographic, byte by byte.
pub open spec fn name_less(a: Seq<u8>, b: Seq<u8>) -> bool {
    exists|k: int| less_at(a, b, k)
}

/// No name comes before itself.
pub proof fn lemma_less_irreflexive(a: Seq<u8>)
    ensures
        !name_less(a, a),
{
}

/// The order of names is transitive.
pub proof fn lemma_less_transitive(a: Seq<u8>, b: Seq<u8>, c: Seq<u8>)
    requires
        name_less(a, b),
        name_less(b, c),
    ensures
        name_less(a, c),
{
    let k1 = choose|k: int| less_at(a, b, k);
    let k2 = choose|k: int| less_at(b, c, k);
    let k = if k1 <= k2 { k1 } else { k2 };
    assert(less_at(a, c, k));
}

/// Of two names at most one comes before the other.
pub proof fn lemma_less_asymmetric(a: Seq<u8>, b: Seq<u8>)
    requires
        name_less(a, b),
    ensures
        !name_less(b, a),
        a != b,
{
    if name_less(b, a) {
        lemma_less_transitive(a, b, a);
        lemma_less_irreflexive(a);
    }
    lemma_less_irreflexive(a);
}

/// Two names that agree before position `k` are the same, or one comes
/// before the other.
proof fn lemma_less_total_from(a: Seq<u8>, b: Seq<u8>, k: int)
    requires
        0 <= k <= a.len(),
        k <= b.len(),
        forall|j: int| 0 <= j < k ==> a[j] == b[j],
    ensures
        a == b || name_less(a, b) || name_less(b, a),
    decreases a.len() - k,
{
    if k == a.len() {
        if k == b.len() {
            assert(a =~= b);
        } else {
            assert(less_at(a, b, k));
        }
    } else if k == b.len() {
        assert(less_at(b, a, k));
    } else if a[k] < b[k] {
        assert(less_at(a, b, k));
    } else if b[k] < a[k] {
        assert(less_at(b, a, k));
    } else {
        lemma_less_total_from(a, b, k + 1);
    }
}

/// Of two different names one comes before the other.
pub proof fn lemma_less_total(a: Seq<u8>, b: Seq<u8>)
    ensures
        a == b || name_less(a, b) || name_less(b, a),
{
    lemma_less_total_from(a, b, 0);
}

/// How one name stands to another in the order of names.
#[derive(Clone, Copy, Debug, PartialEq, Eq, Structural)]
pub enum Rank {
    Before,
    Same,
    After,
}

/// What a [`Rank`] says of two names.
pub open spec fn rank_of(a: Seq<u8>, b: Seq<u8>) -> Rank {
    if a == b {
        Rank::Same
    } else if name_less(a, b) {
        Rank::Before
    } else {
        Rank::After
    }
}

/// Two names stand to each other in exactly one way: the first comes
/// before the second, or they are the same, or the second comes before the
/// first.
pub proof fn lemma_rank_of(a: Seq<u8>, b: Seq<u8>)
    ensures
        match rank_of(a, b) {
            Rank::Before => name_less(a, b) && a != b && !name_less(b, a),
            Rank::Same => a == b && !name_less(a, b) && !name_less(b, a),
            Rank::After => name_less(b, a) && a != b && !name_less(a, b),
        },
{
    lemma_less_total(a, b);
    lemma_less_irreflexive(a);
    if name_less(a, b) {
        lemma_less_asymmetric(a, b);
    }
    if name_less(b, a) {
        lemma_less_asymmetric(b, a);
    }
}

/// Compares two texts byte by byte.
fn rank_text(a: &str, b: &str) -> (r: Rank)
    ensures
        r == rank_of(a.spec_bytes(), b.spec_bytes()),
{
    let x = a.as_bytes();
    let y = b.as_bytes();
    let mut i: usize = 0;
    while i < x.len() && i < y.len()
        invariant
            i <= x.len(),
            i <= y.len(),
            forall|j: int| 0 <= j < i ==> x@[j] == y@[j],
            x@ == a.spec_bytes(),
            y@ == b.spec_bytes(),
        decreases x.len() - i,
    {
        if x[i] < y[i] {
            assert(less_at(x@, y@, i as int));
            proof {
                lemma_less_asymmetric(x@, y@);
            }
            return Rank::Before;
        }
        if x[i] > y[i] {
            assert(less_at(y@, x@, i as int));
            proof {
                lemma_less_asymmetric(y@, x@);
            }
            return Rank::After;
        }
        i += 1;
    }
    if i < y.len() {
        assert(less_at(x@, y@, i as int));
        proof {
            lemma_less_asymmetric(x@, y@);
        }
        Rank::Before
    } else if i < x.len() {
        assert(less_at(y@, x@, i as int));
        proof {
            lemma_less_asymmetric(y@, x@);
        }
        Rank::After
    } else {
        assert(x@ =~= y@);
        Rank::Same
    }
}

/// `String::push` of std: the text gains the character at its end.
#[verifier::external_body]
fn push_char(text: &mut String, c: char)
    ensures
        final(text)@ == old(text)@.push(c),
{
    text.push(c);
}

/// What holds of the normal form of the first bytes of a spelling while it is
/// read from the left.
spec fn is_normal_prefix(raw: Seq<u8>, out: Seq<u8>) -> bool {
    &&& forall|i: int|
        0 <= i < out.len() ==> (0x30 <= #[trigger] out[i] <= 0x39) || (0x61 <= out[i] <= 0x7a)
            || out[i] == 0x2d
    &&& forall|i: int| 0 <= i < out.len() - 1 ==> !(#[trigger] out[i] == 0x2d && out[i + 1] == 0x2d)
    &&& raw.len() > 0 ==> out.len() > 0 && out[0] != 0x2d
    &&& raw.len() > 0 ==> (out[out.len() - 1] == 0x2d <==> is_separator(raw[raw.len() - 1]))
}

/// The normal form of a spelling, or `None` where it names nothing.
fn normalize(raw: &str) -> (r: Option<String>)
    ensures
        r is Some <==> is_valid_name(raw.spec_bytes()),
        r matches Some(text) ==> encode_utf8(text@) == normal_form(raw.spec_bytes())
            && is_normalized(encode_utf8(text@)),
{
    let bytes = raw.as_bytes();
    let n: usize = bytes.len();
    if n == 0 {
        return None;
    }
    let mut out = String::new();
    let ghost mut form: Seq<u8> = Seq::empty();
    let mut i: usize = 0;
    while i < n
        invariant
            i <= n,
            n == bytes@.len(),
            bytes@ == raw.spec_bytes(),
            forall|j: int| 0 <= j < i ==> is_alnum(#[trigger] bytes@[j]) || is_separator(bytes@[j]),
            i > 0 ==> is_alnum(bytes@[0]),
            form == normal_form(bytes@.take(i as int)),
            is_normal_prefix(bytes@.take(i as int), form),
            out@.len() == form.len(),
            forall|k: int| 0 <= k < form.len() ==> #[trigger] out@[k] as u8 == form[k],
            is_ascii_chars(out@),
        decreases n - i,
    {
        let b: u8 = bytes[i];
        let ghost seen = bytes@.take(i as int);
        let ghost next = bytes@.take(i + 1);
        assert(next.drop_last() =~= seen);
        assert(next.last() == b);
        if (0x30 <= b && b <= 0x39) || (0x61 <= b && b <= 0x7a) {
            push_char(&mut out, b as char);
            proof {
                form = form.push(b);
            }
        } else if 0x41 <= b && b <= 0x5a {
            let low: u8 = b + 32;
            push_char(&mut out, low as char);
            proof {
                form = form.push(low);
            }
        } else if b == 0x2d || b == 0x5f || b == 0x2e {
            if i == 0 {
                return None;
            }
            let before: u8 = bytes[i - 1];
            assert(next[next.len() - 2] == before);
            if !(before == 0x2d || before == 0x5f || before == 0x2e) {
                push_char(&mut out, '-');
                proof {
                    form = form.push(0x2du8);
                }
            }
        } else {
            return None;
        }
        i += 1;
    }
    assert(bytes@.take(n as int) =~= bytes@);
    let last: u8 = bytes[n - 1];
    if last == 0x2d || last == 0x5f || last == 0x2e {
        return None;
    }
    proof {
        is_ascii_chars_encode_utf8(out@);
        assert(encode_utf8(out@) =~= form);
    }
    Some(out)
}

/// A type of names, ordered by the bytes of their normal form.
pub trait NameLike: Sized {
    /// The bytes of the name.
    spec fn name_bytes(&self) -> Seq<u8>;

    /// Where this name stands to another.
    fn rank_to(&self, other: &Self) -> (r: Rank)
        ensures
            r == rank_of(self.name_bytes(), other.name_bytes()),
    ;
}

/// The name of a package.
#[derive(Debug, PartialEq, Eq, PartialOrd, Ord, Hash)]
pub struct PackageName {
    text: String,
}

impl View for PackageName {
    type V = Seq<u8>;

    closed spec fn view(&self) -> Seq<u8> {
        encode_utf8(self.text@)
    }
}

impl DeepView for PackageName {
    type V = Seq<u8>;

    open spec fn deep_view(&self) -> Seq<u8> {
        self@
    }
}

impl PackageName {
    #[verifier::type_invariant]
    spec fn normal(&self) -> bool {
        is_normalized(encode_utf8(self.text@))
    }

    /// The package that a spelling names, if it names one.
    pub fn new(raw: &str) -> (r: Option<PackageName>)
        ensures
            r is Some <==> is_valid_name(raw.spec_bytes()),
            r matches Some(name) ==> name@ == normal_form(raw.spec_bytes()) && is_normalized(name@),
    {
        match normalize(raw) {
            Some(text) => Some(PackageName { text }),
            None => None,
        }
    }

    /// The name, which is in normal form.
    pub fn as_str(&self) -> (r: &str)
        ensures
            r.spec_bytes() == self@,
            is_normalized(self@),
    {
        proof {
            use_type_invariant(self);
        }
        self.text.as_str()
    }

    /// Where this name stands to another.
    pub fn rank(&self, other: &PackageName) -> (r: Rank)
        ensures
            r == rank_of(self@, other@),
    {
        rank_text(self.text.as_str(), other.text.as_str())
    }

    /// Whether two names are the same.
    pub fn same(&self, other: &PackageName) -> (r: bool)
        ensures
            r == (self@ == other@),
    {
        self.rank(other) == Rank::Same
    }
}

impl Clone for PackageName {
    fn clone(&self) -> (r: PackageName)
        ensures
            r@ == self@,
    {
        proof {
            use_type_invariant(self);
        }
        PackageName { text: self.text.clone() }
    }
}

impl NameLike for PackageName {
    open spec fn name_bytes(&self) -> Seq<u8> {
        self@
    }

    fn rank_to(&self, other: &Self) -> (r: Rank) {
        self.rank(other)
    }
}

/// The name of a dependency group.
#[derive(Debug, PartialEq, Eq, PartialOrd, Ord, Hash)]
pub struct GroupName {
    text: String,
}

impl View for GroupName {
    type V = Seq<u8>;

    closed spec fn view(&self) -> Seq<u8> {
        encode_utf8(self.text@)
    }
}

impl DeepView for GroupName {
    type V = Seq<u8>;

    open spec fn deep_view(&self) -> Seq<u8> {
        self@
    }
}

impl GroupName {
    #[verifier::type_invariant]
    spec fn normal(&self) -> bool {
        is_normalized(encode_utf8(self.text@))
    }

    /// The group that a spelling names, if it names one.
    pub fn new(raw: &str) -> (r: Option<GroupName>)
        ensures
            r is Some <==> is_valid_name(raw.spec_bytes()),
            r matches Some(name) ==> name@ == normal_form(raw.spec_bytes()) && is_normalized(name@),
    {
        match normalize(raw) {
            Some(text) => Some(GroupName { text }),
            None => None,
        }
    }

    /// The name, which is in normal form.
    pub fn as_str(&self) -> (r: &str)
        ensures
            r.spec_bytes() == self@,
            is_normalized(self@),
    {
        proof {
            use_type_invariant(self);
        }
        self.text.as_str()
    }

    /// Where this name stands to another.
    pub fn rank(&self, other: &GroupName) -> (r: Rank)
        ensures
            r == rank_of(self@, other@),
    {
        rank_text(self.text.as_str(), other.text.as_str())
    }

    /// Whether two names are the same.
    pub fn same(&self, other: &GroupName) -> (r: bool)
        ensures
            r == (self@ == other@),
    {
        self.rank(other) == Rank::Same
    }
}

impl Clone for GroupName {
    fn clone(&self) -> (r: GroupName)
        ensures
            r@ == self@,
    {
        proof {
            use_type_invariant(self);
        }
        GroupName { text: self.text.clone() }
    }
}

impl NameLike for GroupName {
    open spec fn name_bytes(&self) -> Seq<u8> {
        self@
    }

    fn rank_to(&self, other: &Self) -> (r: Rank) {
        self.rank(other)
    }
}

/// The bytes of `dev`, the name of the group that holds the legacy
/// development requirements.
pub open spec fn dev_name() -> Seq<u8> {
    seq![0x64u8, 0x65u8, 0x76u8]
}

impl GroupName {
    /// The reserved group `dev`.
    pub fn dev() -> (r: GroupName)
        ensures
            r@ == dev_name(),
    {
        let text = "dev".to_owned();
        proof {
            reveal_strlit("dev");
            is_ascii_chars_encode_utf8(text@);
            assert(encode_utf8(text@) =~= dev_name());
        }
        GroupName { text }
    }
}

/// The name of an optional feature of a package, an extra.
#[derive(Debug, PartialEq, Eq, PartialOrd, Ord, Hash)]
pub struct ExtraName {
    text: String,
}

impl View for ExtraName {
    type V = Seq<u8>;

    closed spec fn view(&self) -> Seq<u8> {
        encode_utf8(self.text@)
    }
}

impl DeepView for ExtraName {
    type V = Seq<u8>;

    open spec fn deep_view(&self) -> Seq<u8> {
        self@
    }
}

impl ExtraName {
    #[verifier::type_invariant]
    spec fn normal(&self) -> bool {
        is_normalized(encode_utf8(self.text@))
    }

    /// The extra that a spelling names, if it names one.
    pub fn new(raw: &str) -> (r: Option<ExtraName>)
        ensures
            r is Some <==> is_valid_name(raw.spec_bytes()),
            r matches Some(name) ==> name@ == normal_form(raw.spec_bytes()) && is_normalized(name@),
    {
        match normalize(raw) {
            Some(text) => Some(ExtraName { text }),
            None => None,
        }
    }

    /// The name, which is in normal form.
    pub fn as_str(&self) -> (r: &str)
        ensures
            r.spec_bytes() == self@,
            is_normalized(self@),
    {
        proof {
            use_type_invariant(self);
        }
        self.text.as_str()
    }

    /// Where this name stands to another.
    pub fn rank(&self, other: &ExtraName) -> (r: Rank)
        ensures
            r == rank_of(self@, other@),
    {
        rank_text(self.text.as_str(), other.text.as_str())
    }

    /// Whether two names are the same.
    pub fn same(&self, other: &ExtraName) -> (r: bool)
        ensures
            r == (self@ == other@),
    {
        self.rank(other) == Rank::Same
    }
}

impl Clone for ExtraName {
    fn clone(&self) -> (r: ExtraName)
        ensures
            r@ == self@,
    {
        proof {
            use_type_invariant(self);
        }
        ExtraName { text: self.text.clone() }
    }
}

impl NameLike for ExtraName {
    open spec fn name_bytes(&self) -> Seq<u8> {
        self@
    }

    fn rank_to(&self, other: &Self) -> (r: Rank) {
        self.rank(other)
    }
}

} // verus!
