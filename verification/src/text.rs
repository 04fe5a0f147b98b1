use vstd::prelude::*;

verus! {

/// The separator between the segments of a pattern or of a path.
pub open spec fn slash() -> char {
    '/'
}

/// The pieces of `s` between its slashes, empty pieces included: a text without
/// a slash is one piece, and each slash starts a new one.
pub open spec fn split(s: Seq<char>) -> Seq<Seq<char>>
    decreases s.len(),
{
    if s.len() == 0 {
        seq![Seq::<char>::empty()]
    } else {
        let before = split(s.drop_last());
        if s.last() == slash() {
            before.push(Seq::<char>::empty())
        } else {
            before.drop_last().push(before.last().push(s.last()))
        }
    }
}

/// The pieces of `parts` that are not empty, in their order.
pub open spec fn nonempty(parts: Seq<Seq<char>>) -> Seq<Seq<char>>
    decreases parts.len(),
{
    if parts.len() == 0 {
        parts
    } else if parts.last().len() > 0 {
        nonempty(parts.drop_last()).push(parts.last())
    } else {
        nonempty(parts.drop_last())
    }
}

/// The segments of a path or pattern: its pieces between slashes, without the empty ones.
pub open spec fn segments(s: Seq<char>) -> Seq<Seq<char>> {
    nonempty(split(s))
}

/// The pieces of `parts` written one after another with a slash between neighbours.
pub open spec fn join(parts: Seq<Seq<char>>) -> Seq<char>
    decreases parts.len(),
{
    if parts.len() == 0 {
        Seq::<char>::empty()
    } else if parts.len() == 1 {
        parts[0]
    } else {
        join(parts.drop_last()) + seq![slash()] + parts.last()
    }
}

/// `s` without the slashes it begins with.
pub open spec fn trim_start(s: Seq<char>) -> Seq<char>
    decreases s.len(),
{
    if s.len() > 0 && s[0] == slash() {
        trim_start(s.skip(1))
    } else {
        s
    }
}

/// `s` without the slashes it ends with.
pub open spec fn trim_end(s: Seq<char>) -> Seq<char>
    decreases s.len(),
{
    if s.len() > 0 && s.last() == slash() {
        trim_end(s.drop_last())
    } else {
        s
    }
}

/// `s` without the slashes at either end.
pub open spec fn trimmed(s: Seq<char>) -> Seq<char> {
    trim_end(trim_start(s))
}

/// `s` without `prefix` at its start, if it starts with it.
pub open spec fn without_prefix(s: Seq<char>, prefix: Seq<char>) -> Option<Seq<char>> {
    if prefix.is_prefix_of(s) {
        Some(s.skip(prefix.len() as int))
    } else {
        None
    }
}

/// `s` without `suffix` at its end, if it ends with it.
pub open spec fn without_suffix(s: Seq<char>, suffix: Seq<char>) -> Option<Seq<char>> {
    if suffix.is_suffix_of(s) {
        Some(s.take(s.len() - suffix.len()))
    } else {
        None
    }
}

/// What stands in `s` between `open` at its start and `close` at the end of
/// the rest, if `s` has that form.
pub open spec fn enclosed(s: Seq<char>, open: Seq<char>, close: Seq<char>) -> Option<Seq<char>> {
    match without_prefix(s, open) {
        Some(rest) => without_suffix(rest, close),
        None => None,
    }
}

/// Whether `s` can be one segment: it is not empty and holds no slash.
pub open spec fn is_segment(s: Seq<char>) -> bool {
    s.len() > 0 && forall|i: int| 0 <= i < s.len() ==> s[i] != slash()
}

/// Whether `s` is made of segments with one slash between neighbours: none of
/// its pieces is empty.
pub open spec fn is_segment_path(s: Seq<char>) -> bool {
    forall|i: int| 0 <= i < split(s).len() ==> (#[trigger] split(s)[i]).len() > 0
}

/// The character sequences that a sequence of strings stands for.
pub open spec fn texts(v: Seq<String>) -> Seq<Seq<char>> {
    v.map_values(|s: String| s@)
}

/// The characters of `s`, one by one.
pub fn chars_of(s: &str) -> (v: Vec<char>)
    ensures
        v@ == s@,
{
    let mut v: Vec<char> = Vec::new();
    for c in it: s.chars()
        invariant
            it.seq() == s@,
            v@ == s@.take(it.index()),
    {
        v.push(c);
    }
    v
}

/// Whether `needle` stands in `hay` at position `at`.
pub fn occurs_at(hay: &Vec<char>, at: usize, needle: &Vec<char>) -> (found: bool)
    ensures
        found == (at + needle@.len() <= hay@.len() && hay@.subrange(
            at as int,
            at + needle@.len(),
        ) == needle@),
{
    let n: usize = needle.len();
    let h: usize = hay.len();
    if at > h || n > h - at {
        return false;
    }
    let mut i: usize = 0;
    while i < n
        invariant
            i <= n,
            n == needle@.len(),
            h == hay@.len(),
            at + n <= h,
            hay@.subrange(at as int, at + i) == needle@.take(i as int),
        decreases n - i,
    {
        if hay[at + i] != needle[i] {
            assert(hay@.subrange(at as int, at + n)[i as int] != needle@[i as int]);
            return false;
        }
        assert(hay@.subrange(at as int, at + i + 1) =~= hay@.subrange(at as int, at + i).push(
            hay@[at + i],
        ));
        assert(needle@.take(i + 1) =~= needle@.take(i as int).push(needle@[i as int]));
        i += 1;
    }
    assert(needle@.take(n as int) =~= needle@);
    true
}

/// Whether two texts hold the same characters.
pub fn same_text(a: &str, b: &str) -> (same: bool)
    ensures
        same == (a@ == b@),
{
    let x = chars_of(a);
    let y = chars_of(b);
    if x.len() != y.len() {
        return false;
    }
    let found = occurs_at(&x, 0, &y);
    assert(x@.subrange(0, x@.len() as int) =~= x@);
    found
}

/// `s` without `prefix` at its start, if it starts with it.
pub fn strip_prefix<'a>(s: &'a str, prefix: &str) -> (rest: Option<&'a str>)
    ensures
        match rest {
            Some(r) => without_prefix(s@, prefix@) == Some(r@),
            None => without_prefix(s@, prefix@) is None,
        },
{
    let sc = chars_of(s);
    let pc = chars_of(prefix);
    if occurs_at(&sc, 0, &pc) {
        Some(s.substring_char(pc.len(), sc.len()))
    } else {
        None
    }
}

/// `s` without `suffix` at its end, if it ends with it.
pub fn strip_suffix<'a>(s: &'a str, suffix: &str) -> (rest: Option<&'a str>)
    ensures
        match rest {
            Some(r) => without_suffix(s@, suffix@) == Some(r@),
            None => without_suffix(s@, suffix@) is None,
        },
{
    let sc = chars_of(s);
    let xc = chars_of(suffix);
    if xc.len() > sc.len() {
        return None;
    }
    let at: usize = sc.len() - xc.len();
    if occurs_at(&sc, at, &xc) {
        Some(s.substring_char(0, at))
    } else {
        None
    }
}

/// What stands in `s` between `open` and `close`, if `s` has that form.
pub fn strip_enclosing<'a>(s: &'a str, open: &str, close: &str) -> (inner: Option<&'a str>)
    ensures
        match inner {
            Some(r) => enclosed(s@, open@, close@) == Some(r@),
            None => enclosed(s@, open@, close@) is None,
        },
{
    match strip_prefix(s, open) {
        Some(rest) => strip_suffix(rest, close),
        None => None,
    }
}

/// `s` without the slashes at either end.
pub fn trim_slashes<'a>(s: &'a str) -> (t: &'a str)
    ensures
        t@ == trimmed(s@),
{
    let cs = chars_of(s);
    let n: usize = cs.len();
    let mut a: usize = 0;
    assert(s@.skip(0) =~= s@);
    while a < n && cs[a] == '/'
        invariant
            a <= n,
            cs@ == s@,
            n == s@.len(),
            trim_start(s@) == trim_start(s@.skip(a as int)),
        decreases n - a,
    {
        assert(s@.skip(a as int).skip(1) =~= s@.skip(a + 1));
        a += 1;
    }
    let mut b: usize = n;
    assert(s@.skip(a as int) =~= s@.subrange(a as int, b as int));
    while b > a && cs[b - 1] == '/'
        invariant
            a <= b <= n,
            cs@ == s@,
            n == s@.len(),
            trim_start(s@) == s@.skip(a as int),
            trimmed(s@) == trim_end(s@.subrange(a as int, b as int)),
        decreases b - a,
    {
        assert(s@.subrange(a as int, b as int).drop_last() =~= s@.subrange(a as int, b - 1));
        b -= 1;
    }
    s.substring_char(a, b)
}

/// All the pieces of `s` between its slashes.
pub fn split_text(s: &str) -> (pieces: Vec<String>)
    ensures
        texts(pieces@) == split(s@),
{
    let cs = chars_of(s);
    let n: usize = cs.len();
    let mut pieces: Vec<String> = Vec::new();
    let mut start: usize = 0;
    let mut i: usize = 0;
    assert(s@.take(0) =~= Seq::<char>::empty());
    assert(texts(pieces@).push(s@.subrange(0, 0)) =~= seq![Seq::<char>::empty()]);
    while i < n
        invariant
            start <= i <= n,
            cs@ == s@,
            n == s@.len(),
            split(s@.take(i as int)) == texts(pieces@).push(s@.subrange(start as int, i as int)),
        decreases n - i,
    {
        let ghost before = texts(pieces@);
        let ghost open = s@.subrange(start as int, i as int);
        assert(s@.take(i + 1).drop_last() =~= s@.take(i as int));
        assert(before.push(open).drop_last() =~= before);
        if cs[i] == '/' {
            pieces.push(String::from_str(s.substring_char(start, i)));
            start = i + 1;
            assert(texts(pieces@) =~= before.push(open));
            assert(s@.subrange(start as int, i + 1) =~= Seq::<char>::empty());
        } else {
            assert(s@.subrange(start as int, i + 1) =~= open.push(s@[i as int]));
        }
        i += 1;
    }
    assert(s@.take(n as int) =~= s@);
    let ghost before = texts(pieces@);
    pieces.push(String::from_str(s.substring_char(start, n)));
    assert(texts(pieces@) =~= before.push(s@.subrange(start as int, n as int)));
    pieces
}

/// The segments of `s`: its pieces between slashes, without the empty ones.
pub fn path_segments(s: &str) -> (segs: Vec<String>)
    ensures
        texts(segs@) == segments(s@),
{
    let pieces = split_text(s);
    let ghost all = pieces@;
    let mut segs: Vec<String> = Vec::new();
    assert(texts(all).take(0) =~= Seq::<Seq<char>>::empty());
    for piece in it: pieces.into_iter()
        invariant
            it.seq() == all,
            texts(segs@) == nonempty(texts(all).take(it.index())),
    {
        let ghost k = it.index();
        let ghost kept = texts(segs@);
        assert(texts(all).take(k + 1).drop_last() =~= texts(all).take(k));
        assert(texts(all).take(k + 1).last() == piece@);
        if piece.as_str().unicode_len() > 0 {
            segs.push(piece);
            assert(texts(segs@) =~= kept.push(piece@));
        }
    }
    assert(texts(all).take(all.len() as int) =~= texts(all));
    segs
}

/// The pieces of `parts` from `from` up to `to`, joined by slashes.
pub fn join_range(parts: &[String], from: usize, to: usize) -> (joined: String)
    requires
        from <= to <= parts@.len(),
    ensures
        joined@ == join(texts(parts@).subrange(from as int, to as int)),
{
    let mut joined = String::new();
    let mut k: usize = from;
    while k < to
        invariant
            from <= k <= to <= parts@.len(),
            joined@ == join(texts(parts@).subrange(from as int, k as int)),
        decreases to - k,
    {
        let ghost sofar = texts(parts@).subrange(from as int, k as int);
        let ghost next = texts(parts@).subrange(from as int, k + 1);
        assert(next.drop_last() =~= sofar);
        assert(next.last() == parts@[k as int]@);
        if k > from {
            proof {
                reveal_strlit("/");
            }
            assert("/"@ =~= seq![slash()]);
            joined.append("/");
        } else {
            assert(joined@ + parts@[k as int]@ =~= parts@[k as int]@);
        }
        joined.append(parts[k].as_str());
        k += 1;
    }
    joined
}

/// A text has at least one piece, and no piece holds a slash.
pub proof fn lemma_split_pieces(s: Seq<char>)
    ensures
        split(s).len() >= 1,
        forall|i: int, j: int|
            0 <= i < split(s).len() && 0 <= j < split(s)[i].len() ==> split(s)[i][j] != slash(),
    decreases s.len(),
{
    if s.len() > 0 {
        lemma_split_pieces(s.drop_last());
    }
}

/// A text without a slash is its own single piece.
pub proof fn lemma_split_one(s: Seq<char>)
    requires
        forall|i: int| 0 <= i < s.len() ==> s[i] != slash(),
    ensures
        split(s) == seq![s],
    decreases s.len(),
{
    if s.len() == 0 {
        assert(s =~= Seq::<char>::empty());
    } else {
        lemma_split_one(s.drop_last());
        assert(s.drop_last().push(s.last()) =~= s);
        assert(split(s) =~= seq![s]);
    }
}

/// The pieces of two texts with a slash between them are the pieces of the
/// first followed by the pieces of the second.
pub proof fn lemma_split_concat(a: Seq<char>, b: Seq<char>)
    ensures
        split(a + seq![slash()] + b) == split(a) + split(b),
    decreases b.len(),
{
    let whole = a + seq![slash()] + b;
    if b.len() == 0 {
        assert(whole.drop_last() =~= a);
        assert(split(whole) =~= split(a) + split(b));
    } else {
        let shorter = a + seq![slash()] + b.drop_last();
        assert(whole.drop_last() =~= shorter);
        assert(whole.last() == b.last());
        lemma_split_concat(a, b.drop_last());
        lemma_split_pieces(b.drop_last());
        assert(split(whole) =~= split(a) + split(b));
    }
}

/// Taking the pieces that are not empty goes through concatenation.
pub proof fn lemma_nonempty_concat(x: Seq<Seq<char>>, y: Seq<Seq<char>>)
    ensures
        nonempty(x + y) == nonempty(x) + nonempty(y),
    decreases y.len(),
{
    if y.len() == 0 {
        assert(x + y =~= x);
        assert(nonempty(x) + nonempty(y) =~= nonempty(x));
    } else {
        assert((x + y).drop_last() =~= x + y.drop_last());
        lemma_nonempty_concat(x, y.drop_last());
        assert(nonempty(x + y) =~= nonempty(x) + nonempty(y));
    }
}

/// Where no piece is empty, none is left out.
pub proof fn lemma_nonempty_all(x: Seq<Seq<char>>)
    requires
        forall|i: int| 0 <= i < x.len() ==> (#[trigger] x[i]).len() > 0,
    ensures
        nonempty(x) == x,
    decreases x.len(),
{
    if x.len() > 0 {
        lemma_nonempty_all(x.drop_last());
        assert(x.drop_last().push(x.last()) =~= x);
    }
}

/// The pieces that are left are not empty, and hold no slash where none of
/// the pieces did.
pub proof fn lemma_nonempty_proper(x: Seq<Seq<char>>)
    requires
        forall|i: int, j: int| 0 <= i < x.len() && 0 <= j < x[i].len() ==> x[i][j] != slash(),
    ensures
        forall|i: int| 0 <= i < nonempty(x).len() ==> is_segment(#[trigger] nonempty(x)[i]),
    decreases x.len(),
{
    if x.len() > 0 {
        let before = nonempty(x.drop_last());
        lemma_nonempty_proper(x.drop_last());
        assert forall|i: int| 0 <= i < nonempty(x).len() implies is_segment(
            #[trigger] nonempty(x)[i],
        ) by {
            if i < before.len() {
                assert(nonempty(x)[i] == before[i]);
            } else {
                assert(nonempty(x)[i] == x[x.len() - 1]);
            }
        }
    }
}

/// Each segment of a text is not empty and holds no slash.
pub proof fn lemma_segments_proper(s: Seq<char>)
    ensures
        forall|i: int| 0 <= i < segments(s).len() ==> is_segment(#[trigger] segments(s)[i]),
{
    lemma_split_pieces(s);
    lemma_nonempty_proper(split(s));
}

/// The segments of two texts with a slash between them are the segments of
/// the first followed by the segments of the second.
pub proof fn lemma_segments_concat(a: Seq<char>, b: Seq<char>)
    ensures
        segments(a + seq![slash()] + b) == segments(a) + segments(b),
{
    lemma_split_concat(a, b);
    lemma_nonempty_concat(split(a), split(b));
}

/// Joining the pieces of a text gives the text back.
pub proof fn lemma_join_split(s: Seq<char>)
    ensures
        join(split(s)) == s,
    decreases s.len(),
{
    if s.len() == 0 {
        assert(join(split(s)) =~= s);
    } else {
        let before = split(s.drop_last());
        lemma_join_split(s.drop_last());
        lemma_split_pieces(s.drop_last());
        if s.last() == slash() {
            assert(split(s).drop_last() =~= before);
            assert(join(split(s)) =~= s);
        } else if before.len() == 1 {
            assert(join(split(s)) =~= s);
        } else {
            let pieces = split(s);
            assert(pieces.drop_last() =~= before.drop_last());
            assert(pieces.last() == before.last().push(s.last()));
            assert(join(pieces) == join(before.drop_last()) + seq![slash()] + pieces.last());
            assert(join(before) == join(before.drop_last()) + seq![slash()] + before.last());
            assert(s.drop_last().push(s.last()) =~= s);
            assert(join(pieces) =~= join(before).push(s.last()));
        }
    }
}

/// A text that begins with a slash has an empty first piece.
pub proof fn lemma_split_leading_slash(s: Seq<char>)
    requires
        s.len() > 0,
        s[0] == slash(),
    ensures
        split(s).len() >= 2,
        split(s)[0].len() == 0,
    decreases s.len(),
{
    if s.len() == 1 {
        assert(s.drop_last() =~= Seq::<char>::empty());
    } else {
        lemma_split_leading_slash(s.drop_last());
    }
}

/// A text made of segments has no slash at either end, so trimming leaves it
/// as it is.
pub proof fn lemma_trimmed_segment_path(s: Seq<char>)
    requires
        is_segment_path(s),
    ensures
        s.len() > 0,
        trimmed(s) == s,
{
    lemma_split_pieces(s);
    if s.len() == 0 {
        assert(split(s)[0].len() > 0);
    } else {
        if s[0] == slash() {
            lemma_split_leading_slash(s);
            assert(split(s)[0].len() > 0);
        }
        if s.last() == slash() {
            assert(split(s)[split(s).len() - 1].len() > 0);
        }
    }
}

} // verus!
