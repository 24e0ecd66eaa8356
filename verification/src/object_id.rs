//! Commit and change identifiers, their byte order and their hexadecimal digits.

use vstd::prelude::*;

verus! {

/// The length of the longest common prefix of `a` and `b`.
pub open spec fn common_prefix_len(a: Seq<u8>, b: Seq<u8>) -> nat
    decreases a.len(),
{
    if a.len() > 0 && b.len() > 0 && a[0] == b[0] {
        1 + common_prefix_len(a.drop_first(), b.drop_first())
    } else {
        0
    }
}

/// Lexicographic order: at the first difference `a` has ended or has the smaller element.
pub open spec fn lex_lt(a: Seq<u8>, b: Seq<u8>) -> bool {
    let n = common_prefix_len(a, b) as int;
    n < b.len() && (n == a.len() || a[n] < b[n])
}

/// Lexicographic order, equality included.
pub open spec fn lex_le(a: Seq<u8>, b: Seq<u8>) -> bool {
    a == b || lex_lt(a, b)
}

/// The value of the `i`th hexadecimal digit of `bytes`, high half of each byte first.
pub open spec fn hex_digit(bytes: Seq<u8>, i: int) -> u8 {
    if i % 2 == 0 {
        bytes[i / 2] / 16
    } else {
        bytes[i / 2] % 16
    }
}

/// The hexadecimal digits that spell `bytes`, each as a value below 16.
pub open spec fn hex_digits(bytes: Seq<u8>) -> Seq<u8> {
    Seq::new(2 * bytes.len(), |i: int| hex_digit(bytes, i))
}

pub proof fn lemma_common_prefix(a: Seq<u8>, b: Seq<u8>)
    ensures
        common_prefix_len(a, b) <= a.len(),
        common_prefix_len(a, b) <= b.len(),
        forall|i: int| 0 <= i < common_prefix_len(a, b) ==> a[i] == b[i],
        common_prefix_len(a, b) < a.len() && common_prefix_len(a, b) < b.len()
            ==> a[common_prefix_len(a, b) as int] != b[common_prefix_len(a, b) as int],
    decreases a.len(),
{
    if a.len() > 0 && b.len() > 0 && a[0] == b[0] {
        let at = a.drop_first();
        let bt = b.drop_first();
        lemma_common_prefix(at, bt);
        let n = common_prefix_len(at, bt);
        assert forall|i: int| 0 <= i < n + 1 implies a[i] == b[i] by {
            if i > 0 {
                assert(a[i] == at[i - 1]);
                assert(b[i] == bt[i - 1]);
            }
        }
        if n < at.len() && n < bt.len() {
            assert(at[n as int] == a[n as int + 1]);
            assert(bt[n as int] == b[n as int + 1]);
        }
    }
}

/// The common prefix is the only length up to which two sequences agree and after which they
/// differ.
pub proof fn lemma_common_prefix_unique(a: Seq<u8>, b: Seq<u8>, n: nat)
    requires
        n <= a.len(),
        n <= b.len(),
        forall|i: int| 0 <= i < n ==> a[i] == b[i],
        n < a.len() && n < b.len() ==> a[n as int] != b[n as int],
    ensures
        common_prefix_len(a, b) == n,
{
    lemma_common_prefix(a, b);
    let m = common_prefix_len(a, b);
    if m < n {
        assert(a[m as int] == b[m as int]);
    } else if n < m {
        assert(a[n as int] == b[n as int]);
    }
}

pub proof fn lemma_common_prefix_symmetric(a: Seq<u8>, b: Seq<u8>)
    ensures
        common_prefix_len(a, b) == common_prefix_len(b, a),
{
    lemma_common_prefix(a, b);
    lemma_common_prefix_unique(b, a, common_prefix_len(a, b));
}

/// Two sequences are equal, or one of them is below the other, and not both.
pub proof fn lemma_lex_total(a: Seq<u8>, b: Seq<u8>)
    ensures
        a == b || lex_lt(a, b) || lex_lt(b, a),
        !lex_lt(a, a),
        !(lex_lt(a, b) && lex_lt(b, a)),
{
    lemma_common_prefix(a, b);
    lemma_common_prefix(a, a);
    lemma_common_prefix_symmetric(a, b);
    let n = common_prefix_len(a, b);
    if n == a.len() && n == b.len() {
        assert(a =~= b);
    }
}

/// What lies between two sequences shares with each of them at least what they share.
pub proof fn lemma_between(a: Seq<u8>, b: Seq<u8>, c: Seq<u8>)
    requires
        lex_le(a, b),
        lex_le(b, c),
    ensures
        lex_le(a, c),
        lex_lt(a, b) || lex_lt(b, c) ==> lex_lt(a, c),
        common_prefix_len(a, c) <= common_prefix_len(a, b),
        common_prefix_len(a, c) <= common_prefix_len(b, c),
{
    lemma_common_prefix(a, b);
    lemma_common_prefix(b, c);
    lemma_common_prefix(a, c);
    if a != b && b != c {
        let ab = common_prefix_len(a, b);
        let bc = common_prefix_len(b, c);
        let m = if ab < bc { ab } else { bc };
        lemma_common_prefix_unique(a, c, m);
    }
}

pub proof fn lemma_hex_digit(bytes: Seq<u8>, k: int)
    requires
        0 <= k < bytes.len(),
    ensures
        hex_digits(bytes).len() == 2 * bytes.len(),
        hex_digits(bytes)[2 * k] == bytes[k] / 16,
        hex_digits(bytes)[2 * k + 1] == bytes[k] % 16,
        bytes[k] == 16 * (bytes[k] / 16) + bytes[k] % 16,
{
    assert((2 * k) / 2 == k && (2 * k) % 2 == 0);
    assert((2 * k + 1) / 2 == k && (2 * k + 1) % 2 == 1);
}

/// How many digits two byte strings share, from how many bytes they share.
pub proof fn lemma_hex_common(a: Seq<u8>, b: Seq<u8>)
    ensures
        ({
            let n = common_prefix_len(a, b);
            &&& common_prefix_len(hex_digits(a), hex_digits(b)) == if n < a.len() && n < b.len()
                && a[n as int] / 16 == b[n as int] / 16 {
                2 * n + 1
            } else {
                2 * n
            }
        }),
{
    lemma_common_prefix(a, b);
    let n = common_prefix_len(a, b);
    let da = hex_digits(a);
    let db = hex_digits(b);
    assert forall|i: int| 0 <= i < 2 * n implies da[i] == db[i] by {
        assert(a[i / 2] == b[i / 2]);
    }
    if n < a.len() && n < b.len() {
        lemma_hex_digit(a, n as int);
        lemma_hex_digit(b, n as int);
        if a[n as int] / 16 == b[n as int] / 16 {
            lemma_common_prefix_unique(da, db, (2 * n + 1) as nat);
        } else {
            lemma_common_prefix_unique(da, db, (2 * n) as nat);
        }
    } else {
        lemma_common_prefix_unique(da, db, (2 * n) as nat);
    }
}

/// Byte strings are ordered as the digits that spell them are, and equal when those are.
pub proof fn lemma_hex_order(a: Seq<u8>, b: Seq<u8>)
    ensures
        lex_lt(a, b) <==> lex_lt(hex_digits(a), hex_digits(b)),
        a == b <==> hex_digits(a) == hex_digits(b),
{
    lemma_common_prefix(a, b);
    lemma_hex_common(a, b);
    let n = common_prefix_len(a, b) as int;
    if n < a.len() {
        lemma_hex_digit(a, n);
    }
    if n < b.len() {
        lemma_hex_digit(b, n);
    }
    if hex_digits(a) == hex_digits(b) {
        lemma_common_prefix(hex_digits(a), hex_digits(b));
        lemma_common_prefix_unique(
            hex_digits(a),
            hex_digits(b),
            hex_digits(a).len(),
        );
        assert(a =~= b);
    }
}

/// An identifier of an object: a string of bytes.
pub trait ObjectId {
    /// The bytes of the identifier.
    spec fn bytes(&self) -> Seq<u8>;

    /// The bytes of the identifier.
    fn as_bytes(&self) -> (bytes: &[u8])
        ensures
            bytes@ == self.bytes(),
    ;
}

/// The value of a hexadecimal digit, in either case.
pub open spec fn hex_value(c: char) -> Option<u8> {
    if '0' <= c <= '9' {
        Some((c as u8 - '0' as u8) as u8)
    } else if 'a' <= c <= 'f' {
        Some((c as u8 - 'a' as u8 + 10) as u8)
    } else if 'A' <= c <= 'F' {
        Some((c as u8 - 'A' as u8 + 10) as u8)
    } else {
        None
    }
}

/// Every character is a hexadecimal digit.
pub open spec fn is_hex(text: Seq<char>) -> bool {
    forall|i: int| 0 <= i < text.len() ==> hex_value(#[trigger] text[i]) is Some
}

/// The values of the digits of a hexadecimal text.
pub open spec fn hex_text_digits(text: Seq<char>) -> Seq<u8> {
    text.map_values(|c: char| hex_value(c)->0)
}

/// The value of a hexadecimal digit, if `c` is one.
pub fn parse_hex_digit(c: char) -> (value: Option<u8>)
    ensures
        value == hex_value(c),
        value is Some ==> value->0 < 16,
{
    if '0' <= c && c <= '9' {
        Some(c as u8 - '0' as u8)
    } else if 'a' <= c && c <= 'f' {
        Some(c as u8 - 'a' as u8 + 10)
    } else if 'A' <= c && c <= 'F' {
        Some(c as u8 - 'A' as u8 + 10)
    } else {
        None
    }
}

/// The values of the hexadecimal digits that `text` holds, if it holds nothing else.
pub fn parse_hex_digits(text: &str) -> (digits: Option<Vec<u8>>)
    ensures
        digits is Some <==> is_hex(text@),
        digits is Some ==> digits->0@ == hex_text_digits(text@),
        digits is Some ==> forall|i: int| 0 <= i < digits->0@.len() ==> digits->0@[i] < 16,
{
    let mut digits: Vec<u8> = Vec::new();
    let chars = text.chars();
    for c in it: chars
        invariant
            it.seq() == text@,
            digits@.len() == it.index(),
            forall|i: int| 0 <= i < it.index() ==> hex_value(#[trigger] text@[i]) is Some,
            forall|i: int|
                0 <= i < digits@.len() ==> #[trigger] digits@[i] == hex_value(text@[i])->0
                    && digits@[i] < 16,
    {
        match parse_hex_digit(c) {
            Some(value) => digits.push(value),
            None => {
                return None;
            },
        }
    }
    assert(digits@ =~= hex_text_digits(text@));
    Some(digits)
}

/// Whether the two byte strings are equal.
pub fn bytes_eq(a: &[u8], b: &[u8]) -> (equal: bool)
    ensures
        equal == (a@ == b@),
{
    if a.len() != b.len() {
        return false;
    }
    for i in 0..a.len()
        invariant
            a@.len() == b@.len(),
            forall|j: int| 0 <= j < i ==> a@[j] == b@[j],
    {
        if a[i] != b[i] {
            return false;
        }
    }
    assert(a@ =~= b@);
    true
}

/// Whether `a` is lexicographically below `b`.
pub fn bytes_lt(a: &[u8], b: &[u8]) -> (below: bool)
    ensures
        below == lex_lt(a@, b@),
{
    let mut i: usize = 0;
    while i < a.len() && i < b.len() && a[i] == b[i]
        invariant
            i <= a@.len(),
            i <= b@.len(),
            forall|j: int| 0 <= j < i ==> a@[j] == b@[j],
        decreases a@.len() - i,
    {
        i = i + 1;
    }
    proof {
        lemma_common_prefix_unique(a@, b@, i as nat);
    }
    i < b.len() && (i == a.len() || a[i] < b[i])
}

/// The number of leading hexadecimal digits that the two byte strings share.
pub fn common_hex_len(bytes_a: &[u8], bytes_b: &[u8]) -> (len: usize)
    requires
        2 * bytes_a@.len() <= usize::MAX || 2 * bytes_b@.len() <= usize::MAX,
    ensures
        len == common_prefix_len(hex_digits(bytes_a@), hex_digits(bytes_b@)),
{
    let mut i: usize = 0;
    while i < bytes_a.len() && i < bytes_b.len() && bytes_a[i] == bytes_b[i]
        invariant
            i <= bytes_a@.len(),
            i <= bytes_b@.len(),
            forall|j: int| 0 <= j < i ==> bytes_a@[j] == bytes_b@[j],
        decreases bytes_a@.len() - i,
    {
        i = i + 1;
    }
    proof {
        lemma_common_prefix_unique(bytes_a@, bytes_b@, i as nat);
        lemma_hex_common(bytes_a@, bytes_b@);
    }
    if i < bytes_a.len() && i < bytes_b.len() && bytes_a[i] / 16 == bytes_b[i] / 16 {
        2 * i + 1
    } else {
        2 * i
    }
}

/// A copy of the bytes.
pub fn copy_bytes(bytes: &[u8]) -> (copy: Vec<u8>)
    ensures
        copy@ == bytes@,
{
    let mut copy: Vec<u8> = Vec::with_capacity(bytes.len());
    for i in 0..bytes.len()
        invariant
            copy@ == bytes@.take(i as int),
    {
        copy.push(bytes[i]);
        assert(bytes@.take(i + 1) =~= bytes@.take(i as int).push(bytes@[i as int]));
    }
    assert(bytes@.take(bytes@.len() as int) =~= bytes@);
    copy
}

/// The bytes that an even number of hexadecimal digits spell.
pub fn bytes_from_digits(digits: &Vec<u8>) -> (bytes: Vec<u8>)
    requires
        digits@.len() % 2 == 0,
        forall|i: int| 0 <= i < digits@.len() ==> digits@[i] < 16,
    ensures
        hex_digits(bytes@) == digits@,
{
    let mut bytes: Vec<u8> = Vec::with_capacity(digits.len() / 2);
    for k in 0..digits.len() / 2
        invariant
            digits@.len() % 2 == 0,
            forall|i: int| 0 <= i < digits@.len() ==> digits@[i] < 16,
            bytes@.len() == k,
            forall|j: int|
                0 <= j < k ==> #[trigger] bytes@[j] == 16 * digits@[2 * j] + digits@[2 * j + 1],
    {
        assert(digits@[2 * k] < 16 && digits@[2 * k + 1] < 16);
        bytes.push(16 * digits[2 * k] + digits[2 * k + 1]);
    }
    assert forall|i: int| 0 <= i < digits@.len() implies hex_digit(bytes@, i) == digits@[i] by {
        let j = i / 2;
        assert(bytes@[j] == 16 * digits@[2 * j] + digits@[2 * j + 1]);
        assert(digits@[2 * j] < 16 && digits@[2 * j + 1] < 16);
        assert(i == 2 * j || i == 2 * j + 1);
    }
    assert(hex_digits(bytes@) =~= digits@);
    bytes
}

/// The identifier of a commit.
#[derive(Debug, PartialEq, Eq, PartialOrd, Ord, Hash)]
pub struct CommitId(Vec<u8>);

/// The identifier of a change, which the commits that are versions of it share.
#[derive(Debug, PartialEq, Eq, PartialOrd, Ord, Hash)]
pub struct ChangeId(Vec<u8>);

impl View for CommitId {
    type V = Seq<u8>;

    closed spec fn view(&self) -> Seq<u8> {
        self.0@
    }
}

impl View for ChangeId {
    type V = Seq<u8>;

    closed spec fn view(&self) -> Seq<u8> {
        self.0@
    }
}

impl ObjectId for CommitId {
    open spec fn bytes(&self) -> Seq<u8> {
        self@
    }

    fn as_bytes(&self) -> (bytes: &[u8]) {
        self.0.as_slice()
    }
}

impl ObjectId for ChangeId {
    open spec fn bytes(&self) -> Seq<u8> {
        self@
    }

    fn as_bytes(&self) -> (bytes: &[u8]) {
        self.0.as_slice()
    }
}

impl Clone for CommitId {
    fn clone(&self) -> (id: Self)
        ensures
            id@ == self@,
    {
        CommitId(copy_bytes(self.0.as_slice()))
    }
}

impl Clone for ChangeId {
    fn clone(&self) -> (id: Self)
        ensures
            id@ == self@,
    {
        ChangeId(copy_bytes(self.0.as_slice()))
    }
}

impl CommitId {
    /// The identifier with the given bytes.
    pub fn new(bytes: Vec<u8>) -> (id: Self)
        ensures
            id@ == bytes@,
    {
        CommitId(bytes)
    }

    /// The identifier that the hexadecimal text spells.
    pub fn from_hex(hex: &str) -> (id: Self)
        requires
            is_hex(hex@),
            hex@.len() % 2 == 0,
        ensures
            hex_digits(id@) == hex_text_digits(hex@),
    {
        CommitId(bytes_from_digits(&parse_hex_digits(hex).unwrap()))
    }
}

impl ChangeId {
    /// The identifier with the given bytes.
    pub fn new(bytes: Vec<u8>) -> (id: Self)
        ensures
            id@ == bytes@,
    {
        ChangeId(bytes)
    }

    /// The identifier that the hexadecimal text spells.
    pub fn from_hex(hex: &str) -> (id: Self)
        requires
            is_hex(hex@),
            hex@.len() % 2 == 0,
        ensures
            hex_digits(id@) == hex_text_digits(hex@),
    {
        ChangeId(bytes_from_digits(&parse_hex_digits(hex).unwrap()))
    }
}

} // verus!
