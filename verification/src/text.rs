//! Splitting byte text on a separator byte: the newline split that turns a
//! file into lines, and the tab split that turns an edge line into tokens.
//!
//! `split_on` consumes a trailing separator without producing a final empty
//! piece, so a text made of separator-terminated pieces splits back into
//! exactly those pieces (`lemma_split_on_cons`).

use vstd::prelude::*;

verus! {

/// Line separator byte (`\n`).
pub const NL: u8 = 0x0A;

/// Token separator byte within an edge line (`\t`).
pub const TAB: u8 = 0x09;

/// ASCII space, excluded from tokens alongside `NL` and `TAB`.
pub const SPACE: u8 = 0x20;

/// The byte of the section separator line (`#`).
pub const HASH: u8 = 0x23;

/// Pieces of `s` delimited by `sep`.  A trailing separator closes the last
/// piece; it does not open an empty one.
pub open spec fn split_on(s: Seq<u8>, sep: u8) -> Seq<Seq<u8>>
    decreases s.len(),
{
    if s.len() == 0 {
        Seq::empty()
    } else if s[0] == sep {
        seq![Seq::<u8>::empty()] + split_on(s.skip(1), sep)
    } else {
        let r = split_on(s.skip(1), sep);
        if r.len() == 0 {
            seq![seq![s[0]]]
        } else {
            seq![seq![s[0]] + r[0]] + r.skip(1)
        }
    }
}

/// `s` contains no `sep` byte.
pub open spec fn free_of(s: Seq<u8>, sep: u8) -> bool {
    forall|i: int| 0 <= i < s.len() ==> (#[trigger] s[i]) != sep
}

/// A value token: nonempty, and free of the separators of the text format.
pub open spec fn is_token(s: Seq<u8>) -> bool {
    s.len() > 0 && forall|i: int|
        0 <= i < s.len() ==> (#[trigger] s[i]) != NL && s[i] != TAB && s[i] != SPACE
}

/// Splitting a separator-terminated piece off the front of a text.
pub proof fn lemma_split_on_cons(piece: Seq<u8>, sep: u8, rest: Seq<u8>)
    requires
        free_of(piece, sep),
    ensures
        split_on(piece + seq![sep] + rest, sep) == seq![piece] + split_on(rest, sep),
    decreases piece.len(),
{
    let s = piece + seq![sep] + rest;
    if piece.len() == 0 {
        assert(s[0] == sep);
        assert(s.skip(1) =~= rest);
        assert(piece =~= Seq::<u8>::empty());
        assert(seq![Seq::<u8>::empty()] + split_on(rest, sep) =~~= seq![piece] + split_on(
            rest,
            sep,
        ));
    } else {
        assert(s[0] == piece[0]);
        assert(s[0] != sep);
        assert(s.skip(1) =~= piece.skip(1) + seq![sep] + rest);
        assert(free_of(piece.skip(1), sep)) by {
            assert(forall|i: int|
                0 <= i < piece.skip(1).len() ==> #[trigger] piece.skip(1)[i] == piece[i + 1]);
        }
        lemma_split_on_cons(piece.skip(1), sep, rest);
        let r = split_on(s.skip(1), sep);
        assert(r == seq![piece.skip(1)] + split_on(rest, sep));
        assert(r.len() >= 1);
        assert(r[0] == piece.skip(1));
        assert(seq![s[0]] + r[0] =~= piece);
        assert(r.skip(1) =~= split_on(rest, sep));
        assert(split_on(s, sep) =~~= seq![piece] + split_on(rest, sep));
    }
}

/// A nonempty text with no separator is a single piece.
pub proof fn lemma_split_on_whole(piece: Seq<u8>, sep: u8)
    requires
        free_of(piece, sep),
        piece.len() > 0,
    ensures
        split_on(piece, sep) == seq![piece],
    decreases piece.len(),
{
    if piece.len() == 1 {
        assert(piece.skip(1) =~= Seq::<u8>::empty());
        assert(split_on(piece.skip(1), sep).len() == 0);
        assert(split_on(piece, sep) =~~= seq![seq![piece[0]]]);
        assert(seq![piece[0]] =~= piece);
        assert(split_on(piece, sep) =~~= seq![piece]);
    } else {
        assert(free_of(piece.skip(1), sep)) by {
            assert(forall|i: int|
                0 <= i < piece.skip(1).len() ==> #[trigger] piece.skip(1)[i] == piece[i + 1]);
        }
        lemma_split_on_whole(piece.skip(1), sep);
        let r = split_on(piece.skip(1), sep);
        assert(r.len() == 1);
        assert(seq![piece[0]] + r[0] =~= piece);
        assert(split_on(piece, sep) =~~= seq![piece]);
    }
}

/// Splits `s` into the pieces that `split_on` describes.
pub fn split_bytes(s: &[u8], sep: u8) -> (r: Vec<Vec<u8>>)
    ensures
        r@.len() == split_on(s@, sep).len(),
        forall|i: int| 0 <= i < r@.len() ==> (#[trigger] r@[i])@ == split_on(s@, sep)[i],
        forall|i: int| 0 <= i < r@.len() ==> free_of((#[trigger] r@[i])@, sep),
{
    let mut done: Vec<Vec<u8>> = Vec::new();
    let mut cur: Vec<u8> = Vec::new();
    let mut i: usize = 0;
    proof {
        assert(cur@ + s@.skip(0) =~= s@);
        assert(done@.map_values(|v: Vec<u8>| v@) + split_on(s@, sep) =~~= split_on(s@, sep));
    }
    while i < s.len()
        invariant
            0 <= i <= s@.len(),
            free_of(cur@, sep),
            split_on(s@, sep) == done@.map_values(|v: Vec<u8>| v@) + split_on(
                cur@ + s@.skip(i as int),
                sep,
            ),
            forall|k: int| 0 <= k < done@.len() ==> free_of((#[trigger] done@[k])@, sep),
        decreases s@.len() - i,
    {
        let b = s[i];
        proof {
            assert(s@.skip(i as int) =~= seq![s@[i as int]] + s@.skip(i as int + 1));
        }
        if b == sep {
            proof {
                assert(cur@ + s@.skip(i as int) =~= cur@ + seq![sep] + s@.skip(i as int + 1));
                lemma_split_on_cons(cur@, sep, s@.skip(i as int + 1));
                assert((done@.push(cur)).map_values(|v: Vec<u8>| v@) =~= done@.map_values(
                    |v: Vec<u8>| v@,
                ).push(cur@));
                assert(done@.map_values(|v: Vec<u8>| v@) + (seq![cur@] + split_on(
                    s@.skip(i as int + 1),
                    sep,
                )) =~= done@.map_values(|v: Vec<u8>| v@).push(cur@) + split_on(
                    s@.skip(i as int + 1),
                    sep,
                ));
            }
            done.push(cur);
            cur = Vec::new();
        } else {
            proof {
                assert(cur@ + s@.skip(i as int) =~= cur@.push(b) + s@.skip(i as int + 1));
            }
            cur.push(b);
        }
        i = i + 1;
    }
    proof {
        assert(s@.skip(i as int) =~= Seq::<u8>::empty());
        assert(cur@ + s@.skip(i as int) =~= cur@);
    }
    if cur.len() > 0 {
        proof {
            lemma_split_on_whole(cur@, sep);
            assert((done@.push(cur)).map_values(|v: Vec<u8>| v@) =~= done@.map_values(
                |v: Vec<u8>| v@,
            ).push(cur@));
            assert(done@.map_values(|v: Vec<u8>| v@) + seq![cur@] =~= done@.map_values(
                |v: Vec<u8>| v@,
            ).push(cur@));
        }
        done.push(cur);
    } else {
        proof {
            assert(split_on(cur@, sep) =~= Seq::<Seq<u8>>::empty());
            assert(done@.map_values(|v: Vec<u8>| v@) + Seq::<Seq<u8>>::empty() =~= done@.map_values(
                |v: Vec<u8>| v@,
            ));
        }
    }
    proof {
        assert(forall|k: int|
            0 <= k < done@.len() ==> (#[trigger] done@[k])@ == done@.map_values(|v: Vec<u8>| v@)[k]);
    }
    done
}

} // verus!
