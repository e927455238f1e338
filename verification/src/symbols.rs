//! Symbol extraction: splitting a comma-separated text blob into trimmed,
//! non-empty ticker symbols, in input order.

use vstd::prelude::*;

verus! {

/// The characters stripped from the ends of a token: the Unicode White_Space
/// set, the same characters `str::trim` removes.
pub open spec fn is_space_char(c: char) -> bool {
    c == ' ' || c == '\t' || c == '\n' || c == '\r' || c == '\u{b}' || c == '\u{c}' || c
        == '\u{85}' || c == '\u{a0}' || c == '\u{1680}' || c == '\u{2000}' || c == '\u{2001}' || c
        == '\u{2002}' || c == '\u{2003}' || c == '\u{2004}' || c == '\u{2005}' || c == '\u{2006}'
        || c == '\u{2007}' || c == '\u{2008}' || c == '\u{2009}' || c == '\u{200a}' || c
        == '\u{2028}' || c == '\u{2029}' || c == '\u{202f}' || c == '\u{205f}' || c == '\u{3000}'
}

fn is_space(c: char) -> (r: bool)
    ensures
        r == is_space_char(c),
{
    c == ' ' || c == '\t' || c == '\n' || c == '\r' || c == '\u{b}' || c == '\u{c}' || c
        == '\u{85}' || c == '\u{a0}' || c == '\u{1680}' || c == '\u{2000}' || c == '\u{2001}' || c
        == '\u{2002}' || c == '\u{2003}' || c == '\u{2004}' || c == '\u{2005}' || c == '\u{2006}'
        || c == '\u{2007}' || c == '\u{2008}' || c == '\u{2009}' || c == '\u{200a}' || c
        == '\u{2028}' || c == '\u{2029}' || c == '\u{202f}' || c == '\u{205f}' || c == '\u{3000}'
}

/// The sequence with leading whitespace removed.
pub open spec fn trim_front(s: Seq<char>) -> Seq<char>
    decreases s.len(),
{
    if s.len() > 0 && is_space_char(s[0]) {
        trim_front(s.drop_first())
    } else {
        s
    }
}

/// The sequence with trailing whitespace removed.
pub open spec fn trim_back(s: Seq<char>) -> Seq<char>
    decreases s.len(),
{
    if s.len() > 0 && is_space_char(s.last()) {
        trim_back(s.drop_last())
    } else {
        s
    }
}

/// The sequence with whitespace removed from both ends.
pub open spec fn trimmed(s: Seq<char>) -> Seq<char> {
    trim_back(trim_front(s))
}

/// The comma-separated segments of a character sequence, in order, commas
/// excluded. There is always at least one segment: splitting the empty
/// sequence gives one empty segment.
pub open spec fn split_commas(s: Seq<char>) -> Seq<Seq<char>>
    decreases s.len(),
{
    if s.len() == 0 {
        seq![Seq::<char>::empty()]
    } else if s.last() == ',' {
        split_commas(s.drop_last()).push(Seq::<char>::empty())
    } else {
        let rest = split_commas(s.drop_last());
        rest.update(rest.len() - 1, rest.last().push(s.last()))
    }
}

pub proof fn lemma_split_commas_nonempty(s: Seq<char>)
    ensures
        split_commas(s).len() >= 1,
    decreases s.len(),
{
    if s.len() > 0 {
        lemma_split_commas_nonempty(s.drop_last());
    }
}

/// The symbols kept from a segment sequence: each segment trimmed, empty
/// tokens dropped, order preserved.
pub open spec fn kept_symbols(segments: Seq<Seq<char>>) -> Seq<Seq<char>>
    decreases segments.len(),
{
    if segments.len() == 0 {
        Seq::empty()
    } else {
        let rest = kept_symbols(segments.drop_last());
        let tok = trimmed(segments.last());
        if tok.len() == 0 {
            rest
        } else {
            rest.push(tok)
        }
    }
}

/// The ticker symbols of a text blob: split on commas, trim each token, and
/// drop the tokens that are empty after trimming.
pub open spec fn ticker_symbols(s: Seq<char>) -> Seq<Seq<char>> {
    kept_symbols(split_commas(s))
}

/// A sequence free of commas.
pub open spec fn comma_free(t: Seq<char>) -> bool {
    forall|i: int| 0 <= i < t.len() ==> t[i] != ','
}

/// A token as extraction emits it: non-empty, free of commas, and with no
/// whitespace at either end.
pub open spec fn clean_token(t: Seq<char>) -> bool {
    &&& t.len() > 0
    &&& comma_free(t)
    &&& !is_space_char(t[0])
    &&& !is_space_char(t.last())
}

/// Tokens joined back into one comma-separated blob.
pub open spec fn join_commas(tokens: Seq<Seq<char>>) -> Seq<char>
    decreases tokens.len(),
{
    if tokens.len() == 0 {
        Seq::empty()
    } else if tokens.len() == 1 {
        tokens[0]
    } else {
        join_commas(tokens.drop_last()) + seq![','] + tokens.last()
    }
}

/// Trimming the front keeps a suffix of the sequence, and what is left never
/// starts with whitespace.
proof fn lemma_trim_front_suffix(s: Seq<char>)
    ensures
        trim_front(s).len() <= s.len(),
        trim_front(s) == s.subrange(s.len() - trim_front(s).len(), s.len() as int),
        trim_front(s).len() > 0 ==> !is_space_char(trim_front(s)[0]),
    decreases s.len(),
{
    if s.len() > 0 && is_space_char(s[0]) {
        lemma_trim_front_suffix(s.drop_first());
        let f = trim_front(s);
        assert(s.drop_first().subrange(
            s.drop_first().len() - f.len(),
            s.drop_first().len() as int,
        ) =~= s.subrange(s.len() - f.len(), s.len() as int));
    } else {
        assert(trim_front(s) =~= s.subrange(0, s.len() as int));
    }
}

/// Trimming the back keeps a prefix of the sequence, and what is left never
/// ends with whitespace.
proof fn lemma_trim_back_prefix(s: Seq<char>)
    ensures
        trim_back(s).len() <= s.len(),
        trim_back(s) == s.subrange(0, trim_back(s).len() as int),
        trim_back(s).len() > 0 ==> !is_space_char(trim_back(s).last()),
    decreases s.len(),
{
    if s.len() > 0 && is_space_char(s.last()) {
        lemma_trim_back_prefix(s.drop_last());
        let t = trim_back(s);
        assert(s.drop_last() =~= s.subrange(0, s.len() - 1));
        assert(s.drop_last().subrange(0, t.len() as int) =~= s.subrange(0, t.len() as int));
    } else {
        assert(trim_back(s) =~= s.subrange(0, s.len() as int));
    }
}

/// A non-empty trimmed token of a comma-free segment is clean.
proof fn lemma_trimmed_clean(seg: Seq<char>)
    requires
        comma_free(seg),
        trimmed(seg).len() > 0,
    ensures
        clean_token(trimmed(seg)),
{
    lemma_trim_front_suffix(seg);
    let f = trim_front(seg);
    lemma_trim_back_prefix(f);
    let t = trimmed(seg);
    assert forall|i: int| 0 <= i < t.len() implies t[i] != ',' by {
        assert(t[i] == f[i]);
        assert(f[i] == seg[i + seg.len() - f.len()]);
    }
    assert(t[0] == f[0]);
}

/// No segment of the comma split holds a comma.
proof fn lemma_split_comma_free(s: Seq<char>)
    ensures
        forall|k: int|
            0 <= k < split_commas(s).len() ==> comma_free(#[trigger] split_commas(s)[k]),
    decreases s.len(),
{
    if s.len() == 0 {
        assert forall|k: int|
            0 <= k < split_commas(s).len() implies comma_free(#[trigger] split_commas(s)[k]) by {
            assert(split_commas(s)[k] =~= Seq::<char>::empty());
        }
    } else if s.last() == ',' {
        lemma_split_comma_free(s.drop_last());
        let rest = split_commas(s.drop_last());
        assert forall|k: int|
            0 <= k < split_commas(s).len() implies comma_free(#[trigger] split_commas(s)[k]) by {
            if k < rest.len() {
                assert(split_commas(s)[k] == rest[k]);
                assert(comma_free(rest[k]));
            } else {
                assert(split_commas(s)[k] =~= Seq::<char>::empty());
            }
        }
    } else {
        lemma_split_comma_free(s.drop_last());
        let rest = split_commas(s.drop_last());
        lemma_split_commas_nonempty(s.drop_last());
        let upd = rest.update(rest.len() - 1, rest.last().push(s.last()));
        assert(split_commas(s) == upd);
        assert forall|k: int| 0 <= k < upd.len() implies comma_free(#[trigger] upd[k]) by {
            if k == rest.len() - 1 {
                let t = rest.last().push(s.last());
                assert(comma_free(rest[rest.len() - 1]));
                assert forall|i: int| 0 <= i < t.len() implies t[i] != ',' by {
                    if i < t.len() - 1 {
                        assert(t[i] == rest[rest.len() - 1][i]);
                    } else {
                        assert(t[i] == s.last());
                    }
                }
            } else {
                assert(upd[k] == rest[k]);
            }
        }
    }
}

/// Every token that a segment sequence of comma-free segments keeps is clean.
proof fn lemma_kept_clean(segs: Seq<Seq<char>>)
    requires
        forall|k: int| 0 <= k < segs.len() ==> comma_free(#[trigger] segs[k]),
    ensures
        forall|k: int|
            0 <= k < kept_symbols(segs).len() ==> clean_token(#[trigger] kept_symbols(segs)[k]),
    decreases segs.len(),
{
    if segs.len() == 0 {
    } else {
        assert forall|k: int|
            0 <= k < segs.drop_last().len() implies comma_free(
            #[trigger] segs.drop_last()[k],
        ) by {
            assert(segs.drop_last()[k] == segs[k]);
        }
        lemma_kept_clean(segs.drop_last());
        let rest = kept_symbols(segs.drop_last());
        let tok = trimmed(segs.last());
        if tok.len() > 0 {
            assert(comma_free(segs[segs.len() - 1]));
            lemma_trimmed_clean(segs.last());
            assert forall|k: int|
                0 <= k < kept_symbols(segs).len() implies clean_token(
                #[trigger] kept_symbols(segs)[k],
            ) by {
                if k < rest.len() {
                    assert(kept_symbols(segs)[k] == rest[k]);
                } else {
                    assert(kept_symbols(segs)[k] == tok);
                }
            }
        }
    }
}

/// Every token the extraction emits is clean: non-empty, comma-free, and
/// carrying no whitespace at either end.
pub proof fn lemma_tokens_clean(s: Seq<char>)
    ensures
        forall|k: int|
            0 <= k < ticker_symbols(s).len() ==> clean_token(#[trigger] ticker_symbols(s)[k]),
{
    lemma_split_comma_free(s);
    lemma_kept_clean(split_commas(s));
}

/// Splitting a comma-free sequence gives that one segment back.
proof fn lemma_split_single(t: Seq<char>)
    requires
        comma_free(t),
    ensures
        split_commas(t) == seq![t],
    decreases t.len(),
{
    if t.len() == 0 {
        assert(t =~= Seq::<char>::empty());
        assert(split_commas(t) =~= seq![t]);
    } else {
        assert(t.last() != ',');
        assert forall|i: int|
            0 <= i < t.drop_last().len() implies #[trigger] t.drop_last()[i] != ',' by {
            assert(t.drop_last()[i] == t[i]);
        }
        lemma_split_single(t.drop_last());
        assert(t.drop_last().push(t.last()) =~= t);
        assert(split_commas(t) =~= seq![t]);
    }
}

/// Appending a comma and then a comma-free token to a blob appends exactly
/// that token to the blob's split.
proof fn lemma_split_join_step(a: Seq<char>, t: Seq<char>)
    requires
        comma_free(t),
    ensures
        split_commas(a + seq![','] + t) == split_commas(a).push(t),
    decreases t.len(),
{
    let s = a + seq![','] + t;
    if t.len() == 0 {
        assert(s.last() == ',');
        assert(s.drop_last() =~= a);
        assert(t =~= Seq::<char>::empty());
        assert(split_commas(s) =~= split_commas(a).push(t));
    } else {
        assert(s.last() == t.last());
        assert(t.last() != ',');
        assert(s.drop_last() =~= a + seq![','] + t.drop_last());
        assert forall|i: int|
            0 <= i < t.drop_last().len() implies #[trigger] t.drop_last()[i] != ',' by {
            assert(t.drop_last()[i] == t[i]);
        }
        lemma_split_join_step(a, t.drop_last());
        let rest = split_commas(s.drop_last());
        assert(rest == split_commas(a).push(t.drop_last()));
        lemma_split_commas_nonempty(a);
        assert(rest.last() == t.drop_last());
        assert(t.drop_last().push(t.last()) =~= t);
        assert(rest.update(rest.len() - 1, rest.last().push(s.last())) =~= split_commas(a).push(
            t,
        ));
    }
}

/// Extracting from a joined sequence of clean tokens gives those tokens back.
proof fn lemma_rebuild(ts: Seq<Seq<char>>)
    requires
        forall|k: int| 0 <= k < ts.len() ==> clean_token(#[trigger] ts[k]),
    ensures
        ticker_symbols(join_commas(ts)) == ts,
    decreases ts.len(),
{
    if ts.len() == 0 {
        assert(join_commas(ts) =~= Seq::<char>::empty());
        let sp = split_commas(join_commas(ts));
        assert(sp =~= seq![Seq::<char>::empty()]);
        assert(sp.drop_last() =~= Seq::<Seq<char>>::empty());
        assert(sp.last() =~= Seq::<char>::empty());
        assert(trim_front(sp.last()).len() == 0);
        assert(trimmed(sp.last()).len() == 0);
        assert(kept_symbols(sp.drop_last()) =~= Seq::<Seq<char>>::empty());
        assert(kept_symbols(sp) =~= ts);
    } else if ts.len() == 1 {
        let t = ts[0];
        assert(clean_token(t));
        lemma_split_single(t);
        assert(trim_front(t) == t);
        assert(trim_back(t) == t);
        let sp = split_commas(join_commas(ts));
        assert(join_commas(ts) == t);
        assert(sp == seq![t]);
        assert(sp.drop_last() =~= Seq::<Seq<char>>::empty());
        assert(sp.last() == t);
        assert(trimmed(sp.last()) == t);
        assert(kept_symbols(sp.drop_last()) =~= Seq::<Seq<char>>::empty());
        assert(kept_symbols(sp) =~= Seq::<Seq<char>>::empty().push(t));
        assert(Seq::<Seq<char>>::empty().push(t) =~= ts);
    } else {
        let a = join_commas(ts.drop_last());
        let t = ts.last();
        assert(clean_token(ts[ts.len() - 1]));
        assert forall|k: int|
            0 <= k < ts.drop_last().len() implies clean_token(#[trigger] ts.drop_last()[k]) by {
            assert(ts.drop_last()[k] == ts[k]);
        }
        lemma_rebuild(ts.drop_last());
        lemma_split_join_step(a, t);
        assert(trim_front(t) == t);
        assert(trim_back(t) == t);
        let sp = split_commas(a).push(t);
        assert(sp.drop_last() =~= split_commas(a));
        assert(sp.last() == t);
        assert(ticker_symbols(join_commas(ts)) =~= ts);
    }
}

/// Extraction is idempotent on its own output: joining the extracted symbols
/// back with commas and extracting again gives exactly the same symbols.
/// Every emitted token is non-empty, comma-free and already trimmed, so a
/// second pass splits at exactly the inserted commas and changes nothing.
pub proof fn lemma_extraction_idempotent(s: Seq<char>)
    ensures
        ticker_symbols(join_commas(ticker_symbols(s))) == ticker_symbols(s),
{
    lemma_tokens_clean(s);
    lemma_rebuild(ticker_symbols(s));
}

/// Pushes the trimmed token found between character positions `lo` and `hi`
/// of `data` onto `out`, unless the token is empty after trimming.
fn push_token<'a>(data: &'a str, lo: usize, hi: usize, out: &mut Vec<&'a str>)
    requires
        lo <= hi <= data@.len(),
    ensures
        trimmed(data@.subrange(lo as int, hi as int)).len() == 0 ==> final (out).deep_view()
            =~= old(out).deep_view(),
        trimmed(data@.subrange(lo as int, hi as int)).len() > 0 ==> final (out).deep_view()
            =~= old(out).deep_view().push(trimmed(data@.subrange(lo as int, hi as int))),
{
    let ghost seg = data@.subrange(lo as int, hi as int);
    let mut a = lo;
    let mut b = hi;
    while a < b && is_space(data.get_char(a))
        invariant
            lo <= a <= b <= hi <= data@.len(),
            b == hi,
            trim_front(data@.subrange(lo as int, hi as int)) == trim_front(
                data@.subrange(a as int, hi as int),
            ),
        decreases b - a,
    {
        proof {
            assert(data@.subrange(a as int, hi as int).drop_first() =~= data@.subrange(
                a as int + 1,
                hi as int,
            ));
            assert(data@.subrange(a as int, hi as int)[0] == data@[a as int]);
        }
        a = a + 1;
    }
    proof {
        assert(trim_front(data@.subrange(a as int, hi as int)) == data@.subrange(
            a as int,
            hi as int,
        ));
        assert(trimmed(seg) == trim_back(data@.subrange(a as int, hi as int)));
    }
    while b > a && is_space(data.get_char(b - 1))
        invariant
            lo <= a <= b <= hi <= data@.len(),
            trim_back(data@.subrange(a as int, hi as int)) == trim_back(
                data@.subrange(a as int, b as int),
            ),
        decreases b,
    {
        proof {
            assert(data@.subrange(a as int, b as int).drop_last() =~= data@.subrange(
                a as int,
                b as int - 1,
            ));
            assert(data@.subrange(a as int, b as int).last() == data@[b as int - 1]);
        }
        b = b - 1;
    }
    proof {
        assert(trim_back(data@.subrange(a as int, b as int)) == data@.subrange(
            a as int,
            b as int,
        ));
        assert(trimmed(seg) == data@.subrange(a as int, b as int));
        assert(trimmed(seg).len() == b - a);
    }
    if a < b {
        let tok = data.substring_char(a, b);
        out.push(tok);
        proof {
            assert(out.deep_view() =~= old(out).deep_view().push(trimmed(seg)));
        }
    }
}

/// Separates ticker symbols from a text string: the text is split on commas,
/// each piece is trimmed of surrounding whitespace, and pieces that are empty
/// after trimming are dropped. Order is preserved, as are duplicates.
pub fn get_ticker_symbols<'a>(test_data: &'a str) -> (symbols: Vec<&'a str>)
    ensures
        symbols.deep_view() == ticker_symbols(test_data@),
{
    let n = test_data.unicode_len();
    let mut symbols: Vec<&'a str> = Vec::new();
    let mut start: usize = 0;
    let mut i: usize = 0;
    proof {
        assert(test_data@.subrange(0, 0) =~= Seq::<char>::empty());
        assert(split_commas(test_data@.subrange(0, 0)).last() =~= test_data@.subrange(0, 0));
        assert(split_commas(test_data@.subrange(0, 0)).drop_last() =~= Seq::<Seq<char>>::empty());
        assert(symbols.deep_view() =~= kept_symbols(Seq::<Seq<char>>::empty()));
    }
    while i < n
        invariant
            n == test_data@.len(),
            start <= i <= n,
            split_commas(test_data@.subrange(0, i as int)).last() == test_data@.subrange(
                start as int,
                i as int,
            ),
            symbols.deep_view() == kept_symbols(
                split_commas(test_data@.subrange(0, i as int)).drop_last(),
            ),
        decreases n - i,
    {
        let ghost pre = test_data@.subrange(0, i as int);
        let ghost segs = split_commas(pre);
        proof {
            lemma_split_commas_nonempty(pre);
            assert(test_data@.subrange(0, i as int + 1).drop_last() =~= pre);
            assert(test_data@.subrange(0, i as int + 1).last() == test_data@[i as int]);
        }
        let c = test_data.get_char(i);
        if c == ',' {
            push_token(test_data, start, i, &mut symbols);
            proof {
                let segs2 = split_commas(test_data@.subrange(0, i as int + 1));
                assert(segs2 =~= segs.push(Seq::<char>::empty()));
                assert(segs2.drop_last() =~= segs);
                assert(segs =~= segs.drop_last().push(segs.last()));
                assert(segs2.last() =~= test_data@.subrange(i as int + 1, i as int + 1));
            }
            start = i + 1;
        } else {
            proof {
                let segs2 = split_commas(test_data@.subrange(0, i as int + 1));
                assert(segs2 == segs.update(segs.len() - 1, segs.last().push(
                    test_data@[i as int],
                )));
                assert(segs2.drop_last() =~= segs.drop_last());
                assert(segs2.last() =~= test_data@.subrange(start as int, i as int + 1));
            }
        }
        i = i + 1;
    }
    proof {
        let whole = test_data@;
        assert(test_data@.subrange(0, n as int) =~= whole);
        lemma_split_commas_nonempty(whole);
        let segs = split_commas(whole);
        assert(segs =~= segs.drop_last().push(segs.last()));
        assert(segs.drop_last().push(segs.last()).drop_last() =~= segs.drop_last());
        assert(segs.drop_last().push(segs.last()).last() == segs.last());
    }
    push_token(test_data, start, n, &mut symbols);
    proof {
        assert(symbols.deep_view() =~= ticker_symbols(test_data@));
    }
    symbols
}

} // verus!
