//! Frames kept on disk: one numbered file per frame, read back in ascending
//! frame order whatever order the directory lists them in.
use vstd::prelude::*;

verus! {

/// Whether `ch` is an ASCII decimal digit.
pub open spec fn is_digit(ch: char) -> bool {
    '0' <= ch && ch <= '9'
}

/// Whether `s` is made of ASCII decimal digits only.
pub open spec fn all_digits(s: Seq<char>) -> bool {
    forall|i: int| 0 <= i < s.len() ==> is_digit(#[trigger] s[i])
}

/// The value of a digit character.
pub open spec fn digit_value(ch: char) -> int {
    (ch as int) - ('0' as int)
}

/// The decimal value of a run of digits, most significant first.
pub open spec fn digits_value(s: Seq<char>) -> int
    decreases s.len(),
{
    if s.len() == 0 {
        0
    } else {
        digits_value(s.drop_last()) * 10 + digit_value(s.last())
    }
}

/// The character of the digit `d`, for `d` below ten.
pub open spec fn digit_char(d: int) -> char {
    if d == 0 {
        '0'
    } else if d == 1 {
        '1'
    } else if d == 2 {
        '2'
    } else if d == 3 {
        '3'
    } else if d == 4 {
        '4'
    } else if d == 5 {
        '5'
    } else if d == 6 {
        '6'
    } else if d == 7 {
        '7'
    } else if d == 8 {
        '8'
    } else {
        '9'
    }
}

/// The decimal digits of `n`, without leading zeros.
pub open spec fn decimal(n: nat) -> Seq<char>
    decreases n,
{
    if n < 10 {
        seq![digit_char(n as int)]
    } else {
        decimal(n / 10).push(digit_char((n % 10) as int))
    }
}

/// The name of the file that holds frame number `n`.
pub open spec fn frame_name(n: nat) -> Seq<char> {
    decimal(n) + seq!['.', 'r', 'a', 'w']
}

/// What follows the last `sep` in `s`; all of `s` where it holds none.
pub open spec fn after_last(s: Seq<char>, sep: char) -> Seq<char>
    decreases s.len(),
{
    if s.len() == 0 {
        s
    } else if s.last() == sep {
        Seq::empty()
    } else {
        after_last(s.drop_last(), sep).push(s.last())
    }
}

/// What comes before the first `sep` in `s`; all of `s` where it holds none.
pub open spec fn before_first(s: Seq<char>, sep: char) -> Seq<char>
    decreases s.len(),
{
    if s.len() == 0 {
        s
    } else if s[0] == sep {
        Seq::empty()
    } else {
        seq![s[0]] + before_first(s.drop_first(), sep)
    }
}

/// The part of a frame file's path that holds its number: the file name without
/// the directories before it (either separator) and without its extension.
pub open spec fn stem(path: Seq<char>) -> Seq<char> {
    before_first(after_last(after_last(path, '/'), '\\'), '.')
}

/// Whether the stem of `path` is a number that fits in an `i32`.
pub open spec fn has_index(path: Seq<char>) -> bool {
    0 < stem(path).len() && all_digits(stem(path)) && digits_value(stem(path)) <= i32::MAX
}

/// Relies on `str::rsplit_once`: the text after the last `sep`, or all of `s`.
#[verifier::external_body]
fn tail_after(s: &str, sep: char) -> (r: &str)
    ensures
        r@ == after_last(s@, sep),
{
    s.rsplit_once(sep).map_or(s, |(_, tail)| tail)
}

/// Relies on `str::split_once`: the text before the first `sep`, or all of `s`.
#[verifier::external_body]
fn head_before(s: &str, sep: char) -> (r: &str)
    ensures
        r@ == before_first(s@, sep),
{
    s.split_once(sep).map_or(s, |(head, _)| head)
}

/// What `str::parse::<i32>` gives for `s`: an optional `+` or `-` sign, then one
/// or more ASCII digits whose value, with its sign, fits in an `i32`.
pub open spec fn parsed_i32(s: Seq<char>) -> Option<i32> {
    if s.len() > 0 && (s[0] == '+' || s[0] == '-') {
        let digits = s.drop_first();
        let v = if s[0] == '-' {
            -digits_value(digits)
        } else {
            digits_value(digits)
        };
        if 0 < digits.len() && all_digits(digits) && i32::MIN <= v <= i32::MAX {
            Some(v as i32)
        } else {
            None
        }
    } else if 0 < s.len() && all_digits(s) && digits_value(s) <= i32::MAX {
        Some(digits_value(s) as i32)
    } else {
        None
    }
}

/// Relies on `str::parse::<i32>`: an optional sign, then decimal digits whose
/// value fits; anything else is an error.
#[verifier::external_body]
fn parse_i32(s: &str) -> (r: Option<i32>)
    ensures
        r == parsed_i32(s@),
{
    s.parse::<i32>().ok()
}

/// Relies on the `Display` of `u32` through `format!`: the decimal digits of `n`,
/// then the extension.
#[verifier::external_body]
fn format_frame_name(n: u32) -> (r: String)
    ensures
        r@ == frame_name(n as nat),
{
    format!("{}.raw", n)
}

/// The name of the file that holds frame number `n`.
pub fn frame_file_name(n: u32) -> (r: String)
    ensures
        r@ == frame_name(n as nat),
        n <= i32::MAX ==> has_index(r@) && digits_value(stem(r@)) == n,
{
    proof {
        if n <= i32::MAX {
            lemma_frame_name_index(n as nat);
        }
    }
    format_frame_name(n)
}

/// The frame number that a frame file's path carries; 0 where its stem is no
/// number.
pub fn frame_index_of(path: &str) -> (r: i32)
    ensures
        r == match parsed_i32(stem(path@)) {
            Some(v) => v,
            None => 0,
        },
        has_index(path@) ==> r == digits_value(stem(path@)),
{
    let name = tail_after(path, '/');
    let name = tail_after(name, '\\');
    let s = head_before(name, '.');
    proof {
        if all_digits(s@) {
            lemma_digits_value_nonneg(s@);
        }
    }
    match parse_i32(s) {
        Some(v) => v,
        None => 0,
    }
}

/// `order` lists the positions of `keys` from the smallest key to the largest,
/// each position once; positions with equal keys keep their order. This is the
/// order in which frame files are read back.
pub open spec fn is_order_of(keys: Seq<i32>, order: Seq<usize>) -> bool {
    &&& order.len() == keys.len()
    &&& order.no_duplicates()
    &&& forall|j: int| 0 <= j < order.len() ==> #[trigger] order[j] < keys.len()
    &&& forall|v: usize| v < keys.len() ==> #[trigger] order.contains(v)
    &&& forall|j: int, k: int|
        0 <= j < k < order.len() ==> keys[#[trigger] order[j] as int] <= keys[#[trigger] order[k] as int]
    &&& forall|j: int, k: int|
        0 <= j < k < order.len() && keys[#[trigger] order[j] as int] == keys[#[trigger] order[k] as int]
            ==> order[j] < order[k]
}

/// The positions of `keys` sorted by key, ties in their original order.
pub fn replay_order(keys: &Vec<i32>) -> (r: Vec<usize>)
    ensures
        is_order_of(keys@, r@),
{
    let mut out: Vec<usize> = Vec::new();
    let mut i: usize = 0;
    while i < keys.len()
        invariant
            i <= keys@.len(),
            out@.len() == i,
            out@.no_duplicates(),
            forall|j: int| 0 <= j < out@.len() ==> #[trigger] out@[j] < i,
            forall|v: usize| v < i ==> #[trigger] out@.contains(v),
            forall|j: int, k: int|
                0 <= j < k < out@.len() ==> keys@[#[trigger] out@[j] as int] <= keys@[#[trigger] out@[k] as int],
            forall|j: int, k: int|
                0 <= j < k < out@.len() && keys@[#[trigger] out@[j] as int] == keys@[#[trigger] out@[k] as int]
                    ==> out@[j] < out@[k],
        decreases keys@.len() - i,
    {
        let key = keys[i];
        let mut pos: usize = 0;
        while pos < out.len() && keys[out[pos]] <= key
            invariant
                i < keys@.len(),
                key == keys@[i as int],
                pos <= out@.len(),
                forall|j: int| 0 <= j < out@.len() ==> #[trigger] out@[j] < i,
                forall|j: int| 0 <= j < pos ==> keys@[#[trigger] out@[j] as int] <= key,
            decreases out@.len() - pos,
        {
            pos += 1;
        }
        let ghost before = out@;
        assert forall|j: int| pos <= j < before.len() implies keys@[#[trigger] before[j] as int] > key by {
            assert(keys@[before[pos as int] as int] > key);
            if j > pos {
                assert(keys@[before[pos as int] as int] <= keys@[before[j] as int]);
            }
        }
        out.insert(pos, i);
        proof {
            before.insert_ensures(pos as int, i);
        }
        assert forall|j: int| 0 <= j < out@.len() implies #[trigger] out@[j] == (if j < pos {
            before[j]
        } else if j == pos {
            i
        } else {
            before[j - 1]
        }) by {}
        assert forall|v: usize| v < i + 1 implies #[trigger] out@.contains(v) by {
            if v < i {
                assert(before.contains(v));
                let j = choose|j: int| 0 <= j < before.len() && before[j] == v;
                if j < pos {
                    assert(out@[j] == v);
                } else {
                    assert(out@[j + 1] == v);
                }
            } else {
                assert(out@[pos as int] == i);
            }
        }
        assert forall|a: int, b: int| 0 <= a < out@.len() && 0 <= b < out@.len() && a != b implies out@[a] != out@[b] by {
            if a != pos && b != pos {
                let a0 = if a < pos { a } else { a - 1 };
                let b0 = if b < pos { b } else { b - 1 };
                assert(before[a0] != before[b0]);
            }
        }
        i += 1;
    }
    out
}

/// `files` is `paths` read back in frame order: `keys` holds the number of each
/// path (where its stem is one), and `order` sorts the paths by it.
pub open spec fn replayed_in_order(
    paths: Seq<Seq<char>>,
    keys: Seq<i32>,
    order: Seq<usize>,
    files: Seq<Seq<char>>,
) -> bool {
    &&& keys.len() == paths.len()
    &&& forall|i: int|
        0 <= i < paths.len() ==> #[trigger] keys[i] == match parsed_i32(stem(paths[i])) {
            Some(v) => v,
            None => 0i32,
        }
    &&& is_order_of(keys, order)
    &&& files.len() == paths.len()
    &&& forall|j: int| 0 <= j < files.len() ==> #[trigger] files[j] == paths[order[j] as int]
}

/// The views of a list of strings.
pub open spec fn texts(v: Seq<String>) -> Seq<Seq<char>> {
    v.map_values(|s: String| s@)
}

/// Frame files found in a directory, handed out one at a time in ascending
/// frame order.
pub struct DiskReplay {
    current_index: usize,
    files: Vec<String>,
}

impl DiskReplay {
    /// The paths in the order they are handed out.
    pub closed spec fn files(&self) -> Seq<Seq<char>> {
        texts(self.files@)
    }

    /// How many paths have been handed out.
    pub closed spec fn position(&self) -> int {
        self.current_index as int
    }

    /// Orders the paths of a directory listing by the frame number in their names.
    pub fn new(paths: Vec<String>) -> (r: DiskReplay)
        ensures
            r.position() == 0,
            exists|keys: Seq<i32>, order: Seq<usize>|
                #[trigger] replayed_in_order(texts(paths@), keys, order, r.files()),
    {
        let mut keys: Vec<i32> = Vec::new();
        let mut i: usize = 0;
        while i < paths.len()
            invariant
                i <= paths@.len(),
                keys@.len() == i,
                forall|j: int|
                    0 <= j < i ==> #[trigger] keys@[j] == match parsed_i32(stem(paths@[j]@)) {
                        Some(v) => v,
                        None => 0i32,
                    },
            decreases paths@.len() - i,
        {
            let k = frame_index_of(paths[i].as_str());
            keys.push(k);
            i += 1;
        }
        let order = replay_order(&keys);
        let mut files: Vec<String> = Vec::new();
        let mut j: usize = 0;
        while j < order.len()
            invariant
                j <= order@.len(),
                is_order_of(keys@, order@),
                keys@.len() == paths@.len(),
                files@.len() == j,
                forall|m: int| 0 <= m < j ==> #[trigger] files@[m]@ == paths@[order@[m] as int]@,
            decreases order@.len() - j,
        {
            let f = paths[order[j]].clone();
            files.push(f);
            j += 1;
        }
        let r = DiskReplay { current_index: 0, files };
        assert(replayed_in_order(texts(paths@), keys@, order@, r.files()));
        r
    }

    /// The next path to read, if any is left.
    pub fn next_file(&mut self) -> (r: Option<String>)
        ensures
            final(self).files() == old(self).files(),
            old(self).position() < old(self).files().len() ==> r is Some && r->0@ == old(
                self,
            ).files()[old(self).position()] && final(self).position() == old(self).position() + 1,
            old(self).position() >= old(self).files().len() ==> r is None && final(self).position()
                == old(self).position(),
    {
        if self.current_index < self.files.len() {
            let f = self.files[self.current_index].clone();
            self.current_index += 1;
            Some(f)
        } else {
            None
        }
    }

    /// How many paths are still to be handed out.
    pub fn remaining(&self) -> (r: usize)
        ensures
            r == if self.position() < self.files().len() {
                self.files().len() - self.position()
            } else {
                0
            },
    {
        if self.current_index < self.files.len() {
            self.files.len() - self.current_index
        } else {
            0
        }
    }
}

/// Names the files of a recording kept on disk, one per frame, in ascending order.
pub struct DiskSpool {
    written: u32,
}

impl DiskSpool {
    /// How many frames have been named.
    pub closed spec fn count(&self) -> nat {
        self.written as nat
    }

    /// A spool that has named no frame yet.
    pub fn new() -> (r: DiskSpool)
        ensures
            r.count() == 0,
    {
        DiskSpool { written: 0 }
    }

    /// The name of the file for the next frame.
    pub fn next_name(&mut self) -> (r: String)
        requires
            old(self).count() < i32::MAX,
        ensures
            r@ == frame_name(old(self).count()),
            final(self).count() == old(self).count() + 1,
    {
        let r = frame_file_name(self.written);
        self.written += 1;
        r
    }

    /// How many frames have been named.
    pub fn written(&self) -> (r: u32)
        ensures
            r == self.count(),
    {
        self.written
    }
}

proof fn lemma_increasing_lower(t: Seq<int>, j: int)
    requires
        0 <= j < t.len(),
        forall|a: int| 0 <= a < t.len() ==> #[trigger] t[a] >= 0,
        forall|a: int, b: int| 0 <= a < b < t.len() ==> #[trigger] t[a] < #[trigger] t[b],
    ensures
        t[j] >= j,
    decreases j,
{
    if j > 0 {
        lemma_increasing_lower(t, j - 1);
        assert(t[j - 1] < t[j]);
    }
}

proof fn lemma_increasing_upper(t: Seq<int>, j: int)
    requires
        0 <= j < t.len(),
        forall|a: int| 0 <= a < t.len() ==> #[trigger] t[a] < t.len(),
        forall|a: int, b: int| 0 <= a < b < t.len() ==> #[trigger] t[a] < #[trigger] t[b],
    ensures
        t[j] <= j,
    decreases t.len() - j,
{
    if j + 1 < t.len() {
        lemma_increasing_upper(t, j + 1);
        assert(t[j] < t[j + 1]);
    }
}

/// Where the keys are distinct and lie in `[0, n)` for `n` keys, the replay order
/// reads key 0 first, then key 1, and so on.
pub proof fn lemma_distinct_keys_replay_in_sequence(keys: Seq<i32>, order: Seq<usize>)
    requires
        is_order_of(keys, order),
        keys.no_duplicates(),
        forall|i: int| 0 <= i < keys.len() ==> 0 <= #[trigger] keys[i] < keys.len(),
    ensures
        forall|j: int| 0 <= j < order.len() ==> keys[#[trigger] order[j] as int] == j,
{
    let t = Seq::new(order.len(), |j: int| keys[order[j] as int] as int);
    assert forall|a: int, b: int| 0 <= a < b < t.len() implies #[trigger] t[a] < #[trigger] t[b] by {
        assert(keys[order[a] as int] <= keys[order[b] as int]);
        assert(order[a] != order[b]);
    }
    assert forall|a: int| 0 <= a < t.len() implies #[trigger] t[a] >= 0 && t[a] < t.len() by {
        assert(order[a] < keys.len());
    }
    assert forall|j: int| 0 <= j < order.len() implies keys[#[trigger] order[j] as int] == j by {
        lemma_increasing_lower(t, j);
        lemma_increasing_upper(t, j);
    }
}

/// Frames written to disk come back in the order they were written: whatever
/// order a directory listing gives the files of frames `0..n`, reading them back
/// yields frame 0, then frame 1, and so on.
pub proof fn lemma_disk_replay_in_submission_order(
    paths: Seq<Seq<char>>,
    numbers: Seq<nat>,
    keys: Seq<i32>,
    order: Seq<usize>,
    files: Seq<Seq<char>>,
)
    requires
        paths.len() == numbers.len(),
        paths.len() <= i32::MAX,
        numbers.no_duplicates(),
        forall|i: int| 0 <= i < numbers.len() ==> #[trigger] numbers[i] < numbers.len(),
        forall|i: int| 0 <= i < paths.len() ==> #[trigger] paths[i] == frame_name(numbers[i]),
        replayed_in_order(paths, keys, order, files),
    ensures
        forall|j: int| 0 <= j < files.len() ==> #[trigger] files[j] == frame_name(j as nat),
{
    assert forall|i: int| 0 <= i < keys.len() implies #[trigger] keys[i] == numbers[i] by {
        lemma_frame_name_index(numbers[i]);
        lemma_index_parses(paths[i]);
    }
    assert(keys.no_duplicates()) by {
        assert forall|a: int, b: int| 0 <= a < keys.len() && 0 <= b < keys.len() && a != b implies keys[a] != keys[b] by {
            assert(numbers[a] != numbers[b]);
        }
    }
    lemma_distinct_keys_replay_in_sequence(keys, order);
    assert forall|j: int| 0 <= j < files.len() implies #[trigger] files[j] == frame_name(j as nat) by {
        let i = order[j] as int;
        assert(keys[i] == j);
        assert(numbers[i] == j);
    }
}

/// A stem that is a number reads back as that number.
proof fn lemma_index_parses(path: Seq<char>)
    requires
        has_index(path),
    ensures
        parsed_i32(stem(path)) == Some(digits_value(stem(path)) as i32),
{
    let s = stem(path);
    assert(is_digit(s[0]));
}

proof fn lemma_digit_char(d: int)
    requires
        0 <= d < 10,
    ensures
        is_digit(digit_char(d)),
        digit_value(digit_char(d)) == d,
{
}

proof fn lemma_digits_value_nonneg(s: Seq<char>)
    requires
        all_digits(s),
    ensures
        digits_value(s) >= 0,
    decreases s.len(),
{
    if s.len() > 0 {
        assert(is_digit(s[s.len() - 1]));
        lemma_digits_value_nonneg(s.drop_last());
    }
}

proof fn lemma_decimal_digits(n: nat)
    ensures
        0 < decimal(n).len(),
        all_digits(decimal(n)),
        digits_value(decimal(n)) == n,
    decreases n,
{
    let s = decimal(n);
    if n >= 10 {
        lemma_decimal_digits(n / 10);
        lemma_digit_char((n % 10) as int);
        assert(s.drop_last() == decimal(n / 10));
        assert(s.last() == digit_char((n % 10) as int));
        assert(digits_value(s) == digits_value(decimal(n / 10)) * 10 + (n % 10) as int);
        assert((n / 10) * 10 + n % 10 == n);
    } else {
        lemma_digit_char(n as int);
        assert(s.drop_last() == Seq::<char>::empty());
        assert(s.last() == digit_char(n as int));
        assert(digits_value(s) == digits_value(s.drop_last()) * 10 + digit_value(s.last()));
    }
}

proof fn lemma_after_last_absent(s: Seq<char>, sep: char)
    requires
        !s.contains(sep),
    ensures
        after_last(s, sep) == s,
    decreases s.len(),
{
    if s.len() > 0 {
        assert(!s.drop_last().contains(sep)) by {
            if s.drop_last().contains(sep) {
                let i = choose|i: int| 0 <= i < s.drop_last().len() && s.drop_last()[i] == sep;
                assert(s[i] == sep);
            }
        }
        assert(s[s.len() - 1] == s.last());
        lemma_after_last_absent(s.drop_last(), sep);
        assert(s.drop_last().push(s.last()) == s);
    }
}

proof fn lemma_before_first_prefix(a: Seq<char>, b: Seq<char>, sep: char)
    requires
        !a.contains(sep),
        0 < b.len(),
        b[0] == sep,
    ensures
        before_first(a + b, sep) == a,
    decreases a.len(),
{
    if a.len() == 0 {
        assert(a + b == b);
    } else {
        assert((a + b)[0] == a[0]);
        assert((a + b).drop_first() == a.drop_first() + b);
        assert(!a.drop_first().contains(sep)) by {
            if a.drop_first().contains(sep) {
                let i = choose|i: int| 0 <= i < a.drop_first().len() && a.drop_first()[i] == sep;
                assert(a[i + 1] == sep);
            }
        }
        lemma_before_first_prefix(a.drop_first(), b, sep);
        assert(seq![a[0]] + a.drop_first() == a);
    }
}

/// The stem of the name of frame `n` reads back as `n`.
pub proof fn lemma_frame_name_index(n: nat)
    requires
        n <= i32::MAX,
    ensures
        stem(frame_name(n)) == decimal(n),
        has_index(frame_name(n)),
        digits_value(stem(frame_name(n))) == n,
{
    lemma_decimal_digits(n);
    let d = decimal(n);
    let ext = seq!['.', 'r', 'a', 'w'];
    let s = frame_name(n);
    assert(!d.contains('.') && !d.contains('/') && !d.contains('\\')) by {
        assert forall|i: int| 0 <= i < d.len() implies d[i] != '.' && d[i] != '/' && d[i] != '\\' by {
            assert(is_digit(d[i]));
        }
    }
    assert(!s.contains('/') && !s.contains('\\')) by {
        assert forall|i: int| 0 <= i < s.len() implies s[i] != '/' && s[i] != '\\' by {
            if i < d.len() {
                assert(s[i] == d[i]);
            } else {
                assert(s[i] == ext[i - d.len()]);
            }
        }
    }
    lemma_after_last_absent(s, '/');
    lemma_after_last_absent(s, '\\');
    lemma_before_first_prefix(d, ext, '.');
}

} // verus!
