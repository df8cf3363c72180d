//! The manifest's persisted form: one line per tracked path, `i` lines
//! for image files and `d` lines for directories, the path bytes with
//! backslash and newline escaped. `encode` and `decode` are verified
//! against one spec model, and a decode of an encode gives the manifest
//! back exactly.

use vstd::prelude::*;
use crate::manifest::Atlas;

verus! {

/// One escaped byte: backslash and newline get a two-byte escape.
pub open spec fn escb(b: u8) -> Seq<u8> {
    if b == 92u8 {
        seq![92u8, 92u8]
    } else if b == 10u8 {
        seq![92u8, 110u8]
    } else {
        seq![b]
    }
}

/// A path with every byte escaped.
pub open spec fn esc(p: Seq<u8>) -> Seq<u8>
    decreases p.len(),
{
    if p.len() == 0 {
        Seq::<u8>::empty()
    } else {
        escb(p[0]) + esc(p.drop_first())
    }
}

/// One line: the tag byte, the escaped path, a newline.
pub open spec fn enc_line(tag: u8, p: Seq<u8>) -> Seq<u8> {
    seq![tag] + esc(p) + seq![10u8]
}

/// All lines of one kind, in order.
pub open spec fn enc_list(tag: u8, l: Seq<Seq<u8>>) -> Seq<u8>
    decreases l.len(),
{
    if l.len() == 0 {
        Seq::<u8>::empty()
    } else {
        enc_line(tag, l[0]) + enc_list(tag, l.drop_first())
    }
}

/// The manifest's persisted bytes: image lines, then directory lines.
pub open spec fn spec_encode(imgs: Seq<Seq<u8>>, dirs: Seq<Seq<u8>>) -> Seq<u8> {
    enc_list(105u8, imgs) + enc_list(100u8, dirs)
}

/// The parser, one byte (or one escape pair) per step. `tag` is the line
/// kind being read, `cur` the path bytes decoded so far on that line.
pub open spec fn sm(
    s: Seq<u8>,
    i: int,
    tag: Option<u8>,
    cur: Seq<u8>,
    imgs: Seq<Seq<u8>>,
    dirs: Seq<Seq<u8>>,
) -> Option<(Seq<Seq<u8>>, Seq<Seq<u8>>)>
    decreases s.len() - i,
{
    if i < 0 || i >= s.len() {
        match tag {
            Option::None => Option::Some((imgs, dirs)),
            Option::Some(t) => Option::None,
        }
    } else {
        match tag {
            Option::None => {
                if s[i] == 105u8 || s[i] == 100u8 {
                    sm(s, i + 1, Option::Some(s[i]), Seq::<u8>::empty(), imgs, dirs)
                } else {
                    Option::None
                }
            }
            Option::Some(t) => {
                if s[i] == 10u8 {
                    if t == 105u8 {
                        sm(s, i + 1, Option::None, Seq::<u8>::empty(), imgs.push(cur), dirs)
                    } else {
                        sm(s, i + 1, Option::None, Seq::<u8>::empty(), imgs, dirs.push(cur))
                    }
                } else if s[i] == 92u8 {
                    if i + 1 < s.len() && (s[i + 1] == 92u8 || s[i + 1] == 110u8) {
                        sm(s, i + 2, tag, cur.push(if s[i + 1] == 92u8 { 92u8 } else { 10u8 }),
                            imgs, dirs)
                    } else {
                        Option::None
                    }
                } else {
                    sm(s, i + 1, tag, cur.push(s[i]), imgs, dirs)
                }
            }
        }
    }
}

/// What a byte string parses to.
pub open spec fn spec_parse(s: Seq<u8>) -> Option<(Seq<Seq<u8>>, Seq<Seq<u8>>)> {
    sm(s, 0, Option::None, Seq::<u8>::empty(), Seq::<Seq<u8>>::empty(), Seq::<Seq<u8>>::empty())
}

/// Escaping one more byte appends its escape.
proof fn lemma_esc_snoc(p: Seq<u8>, b: u8)
    ensures
        esc(p.push(b)) == esc(p) + escb(b),
    decreases p.len(),
{
    reveal_with_fuel(esc, 3);
    if p.len() == 0 {
        assert(p.push(b)[0] == b);
        assert(p.push(b).drop_first() =~= Seq::<u8>::empty());
        assert(esc(p.push(b)) =~= esc(p) + escb(b));
    } else {
        assert(p.push(b)[0] == p[0]);
        assert(p.push(b).drop_first() =~= p.drop_first().push(b));
        lemma_esc_snoc(p.drop_first(), b);
        assert(escb(p[0]) + (esc(p.drop_first()) + escb(b))
            =~= (escb(p[0]) + esc(p.drop_first())) + escb(b));
    }
}

/// Encoding one more path appends its line.
proof fn lemma_enc_list_snoc(tag: u8, l: Seq<Seq<u8>>, p: Seq<u8>)
    ensures
        enc_list(tag, l.push(p)) == enc_list(tag, l) + enc_line(tag, p),
    decreases l.len(),
{
    reveal_with_fuel(enc_list, 3);
    if l.len() == 0 {
        assert(l.push(p)[0] == p);
        assert(l.push(p).drop_first() =~= Seq::<Seq<u8>>::empty());
        assert(enc_list(tag, l.push(p)) =~= enc_list(tag, l) + enc_line(tag, p));
    } else {
        assert(l.push(p)[0] == l[0]);
        assert(l.push(p).drop_first() =~= l.drop_first().push(p));
        lemma_enc_list_snoc(tag, l.drop_first(), p);
        assert(enc_line(tag, l[0]) + (enc_list(tag, l.drop_first()) + enc_line(tag, p))
            =~= (enc_line(tag, l[0]) + enc_list(tag, l.drop_first())) + enc_line(tag, p));
    }
}

/// Reading an escaped path: the machine decodes exactly the path and
/// stops at the line's newline.
proof fn lemma_sm_path(
    s: Seq<u8>,
    i: int,
    t: u8,
    cur: Seq<u8>,
    imgs: Seq<Seq<u8>>,
    dirs: Seq<Seq<u8>>,
    p: Seq<u8>,
    rest: Seq<u8>,
)
    requires
        0 <= i <= s.len(),
        s.skip(i) =~= esc(p) + seq![10u8] + rest,
        t == 105u8 || t == 100u8,
    ensures
        sm(s, i, Option::Some(t), cur, imgs, dirs) == sm(
            s,
            i + esc(p).len() + 1,
            Option::None,
            Seq::<u8>::empty(),
            if t == 105u8 { imgs.push(cur + p) } else { imgs },
            if t == 105u8 { dirs } else { dirs.push(cur + p) },
        ),
    decreases p.len(),
{
    reveal_with_fuel(esc, 3);
    reveal_with_fuel(sm, 3);
    assert(s.skip(i).len() == s.len() - i);
    assert((esc(p) + seq![10u8] + rest).len() == esc(p).len() + 1 + rest.len());
    if p.len() == 0 {
        assert(esc(p) =~= Seq::<u8>::empty());
        assert(s.skip(i)[0] == s[i]);
        assert(s[i] == 10u8);
        assert(cur + p =~= cur);
    } else {
        let b = p[0];
        let p2 = p.drop_first();
        assert(esc(p) == escb(b) + esc(p2));
        if b != 92u8 && b != 10u8 {
            assert(s.skip(i)[0] == s[i]);
            assert(s[i] == b);
            assert(s.skip(i + 1) =~= esc(p2) + seq![10u8] + rest) by {
                assert forall|k: int| 0 <= k < s.len() - i - 1
                    implies s.skip(i + 1)[k] == (esc(p2) + seq![10u8] + rest)[k] by {
                    assert(s.skip(i + 1)[k] == s[i + 1 + k]);
                    assert(s.skip(i)[k + 1] == s[i + 1 + k]);
                }
            }
            lemma_sm_path(s, i + 1, t, cur.push(b), imgs, dirs, p2, rest);
            assert(cur.push(b) + p2 =~= cur + p);
        } else {
            let e = if b == 92u8 { 92u8 } else { 110u8 };
            assert(escb(b) == seq![92u8, e]);
            assert(s.skip(i)[0] == s[i] && s.skip(i)[1] == s[i + 1]);
            assert(s[i] == 92u8 && s[i + 1] == e);
            assert(s.skip(i + 2) =~= esc(p2) + seq![10u8] + rest) by {
                assert forall|k: int| 0 <= k < s.len() - i - 2
                    implies s.skip(i + 2)[k] == (esc(p2) + seq![10u8] + rest)[k] by {
                    assert(s.skip(i + 2)[k] == s[i + 2 + k]);
                    assert(s.skip(i)[k + 2] == s[i + 2 + k]);
                }
            }
            lemma_sm_path(s, i + 2, t, cur.push(b), imgs, dirs, p2, rest);
            assert(cur.push(b) + p2 =~= cur + p);
        }
    }
}

/// Reading the directory lines at the tail of the input.
proof fn lemma_sm_dirs(
    s: Seq<u8>,
    i: int,
    imgs: Seq<Seq<u8>>,
    dirs: Seq<Seq<u8>>,
    rem: Seq<Seq<u8>>,
)
    requires
        0 <= i <= s.len(),
        s.skip(i) =~= enc_list(100u8, rem),
    ensures
        sm(s, i, Option::None, Seq::<u8>::empty(), imgs, dirs)
            == Option::Some((imgs, dirs + rem)),
    decreases rem.len(),
{
    reveal_with_fuel(enc_list, 3);
    reveal_with_fuel(esc, 2);
    reveal_with_fuel(sm, 3);
    assert(s.skip(i).len() == s.len() - i);
    if rem.len() == 0 {
        assert(s.skip(i).len() == 0);
        assert(i >= s.len());
        assert(dirs + rem =~= dirs);
    } else {
        let p = rem[0];
        assert(enc_list(100u8, rem) == enc_line(100u8, p) + enc_list(100u8, rem.drop_first()));
        assert(s.skip(i)[0] == s[i]);
        assert(s[i] == 100u8);
        assert(s.skip(i + 1) =~= esc(p) + seq![10u8] + enc_list(100u8, rem.drop_first())) by {
            assert forall|k: int| 0 <= k < s.len() - i - 1
                implies s.skip(i + 1)[k]
                    == (esc(p) + seq![10u8] + enc_list(100u8, rem.drop_first()))[k] by {
                assert(s.skip(i + 1)[k] == s[i + 1 + k]);
                assert(s.skip(i)[k + 1] == s[i + 1 + k]);
            }
        }
        lemma_sm_path(s, i + 1, 100u8, Seq::<u8>::empty(), imgs, dirs, p,
            enc_list(100u8, rem.drop_first()));
        assert(Seq::<u8>::empty() + p =~= p);
        let i2 = i + 1 + esc(p).len() + 1;
        assert(s.skip(i2) =~= enc_list(100u8, rem.drop_first())) by {
            assert forall|k: int| 0 <= k < s.len() - i2
                implies s.skip(i2)[k] == enc_list(100u8, rem.drop_first())[k] by {
                assert(s.skip(i2)[k] == s[i2 + k]);
                assert(s.skip(i + 1)[esc(p).len() + 1 + k] == s[i2 + k]);
            }
        }
        lemma_sm_dirs(s, i2, imgs, dirs.push(p), rem.drop_first());
        assert(dirs.push(p) + rem.drop_first() =~= dirs + rem);
    }
}

/// Reading the image lines, with the directory lines following.
proof fn lemma_sm_imgs(
    s: Seq<u8>,
    i: int,
    imgs: Seq<Seq<u8>>,
    rem: Seq<Seq<u8>>,
    dirs: Seq<Seq<u8>>,
)
    requires
        0 <= i <= s.len(),
        s.skip(i) =~= enc_list(105u8, rem) + enc_list(100u8, dirs),
    ensures
        sm(s, i, Option::None, Seq::<u8>::empty(), imgs, Seq::<Seq<u8>>::empty())
            == Option::Some((imgs + rem, dirs)),
    decreases rem.len(),
{
    reveal_with_fuel(enc_list, 3);
    reveal_with_fuel(esc, 2);
    reveal_with_fuel(sm, 3);
    assert(s.skip(i).len() == s.len() - i);
    assert((enc_list(105u8, rem) + enc_list(100u8, dirs)).len()
        == enc_list(105u8, rem).len() + enc_list(100u8, dirs).len());
    if rem.len() == 0 {
        assert(s.skip(i) =~= enc_list(100u8, dirs));
        lemma_sm_dirs(s, i, imgs, Seq::<Seq<u8>>::empty(), dirs);
        assert(Seq::<Seq<u8>>::empty() + dirs =~= dirs);
        assert(imgs + rem =~= imgs);
    } else {
        let p = rem[0];
        assert(enc_list(105u8, rem) == enc_line(105u8, p) + enc_list(105u8, rem.drop_first()));
        assert(s.skip(i)[0] == s[i]);
        assert(s[i] == 105u8);
        let tail = enc_list(105u8, rem.drop_first()) + enc_list(100u8, dirs);
        assert(s.skip(i + 1) =~= esc(p) + seq![10u8] + tail) by {
            assert forall|k: int| 0 <= k < s.len() - i - 1
                implies s.skip(i + 1)[k] == (esc(p) + seq![10u8] + tail)[k] by {
                assert(s.skip(i + 1)[k] == s[i + 1 + k]);
                assert(s.skip(i)[k + 1] == s[i + 1 + k]);
            }
        }
        lemma_sm_path(s, i + 1, 105u8, Seq::<u8>::empty(), imgs, Seq::<Seq<u8>>::empty(), p,
            tail);
        assert(Seq::<u8>::empty() + p =~= p);
        let i2 = i + 1 + esc(p).len() + 1;
        assert(s.skip(i2) =~= tail) by {
            assert forall|k: int| 0 <= k < s.len() - i2
                implies s.skip(i2)[k] == tail[k] by {
                assert(s.skip(i2)[k] == s[i2 + k]);
                assert(s.skip(i + 1)[esc(p).len() + 1 + k] == s[i2 + k]);
            }
        }
        lemma_sm_imgs(s, i2, imgs.push(p), rem.drop_first(), dirs);
        assert(imgs.push(p) + rem.drop_first() =~= imgs + rem);
    }
}

/// Append one line: the tag, the escaped path bytes, a newline.
fn encode_line(out: &mut Vec<u8>, tag: u8, p: &Vec<u8>)
    ensures
        final(out)@ == old(out)@ + enc_line(tag, p@),
{
    let ghost prefix = out@;
    out.push(tag);
    let mut j: usize = 0;
    while j < p.len()
        invariant
            j <= p@.len(),
            out@ == prefix + seq![tag] + esc(p@.take(j as int)),
        decreases p@.len() - j,
    {
        let b = p[j];
        proof {
            assert(p@.take(j as int + 1) =~= p@.take(j as int).push(b));
            lemma_esc_snoc(p@.take(j as int), b);
        }
        let ghost mid = out@;
        if b == 92 {
            out.push(92);
            out.push(92);
        } else if b == 10 {
            out.push(92);
            out.push(110);
        } else {
            out.push(b);
        }
        proof {
            assert(out@ =~= mid + escb(b));
            assert(mid + escb(b) =~= prefix + seq![tag]
                + (esc(p@.take(j as int)) + escb(b)));
        }
        j = j + 1;
    }
    proof {
        assert(p@.take(p@.len() as int) =~= p@);
    }
    out.push(10);
    proof {
        assert(out@ =~= prefix + enc_line(tag, p@));
    }
}

/// Append every line of one kind.
fn encode_list(out: &mut Vec<u8>, tag: u8, l: &Vec<Vec<u8>>)
    ensures
        final(out)@ == old(out)@ + enc_list(tag, l.deep_view()),
{
    broadcast use crate::paths::lemma_deep_len, crate::paths::lemma_deep_index;

    let ghost prefix = out@;
    let mut i: usize = 0;
    proof {
        reveal_with_fuel(enc_list, 2);
        assert(l.deep_view().take(0) =~= Seq::<Seq<u8>>::empty());
        assert(out@ =~= prefix + enc_list(tag, l.deep_view().take(0)));
    }
    while i < l.len()
        invariant
            i <= l@.len(),
            l.deep_view().len() == l@.len(),
            out@ == prefix + enc_list(tag, l.deep_view().take(i as int)),
        decreases l@.len() - i,
    {
        let ghost deep = l.deep_view();
        proof {
            assert(deep[i as int] == l@[i as int]@);
            assert(deep.take(i as int + 1) =~= deep.take(i as int).push(deep[i as int]));
            lemma_enc_list_snoc(tag, deep.take(i as int), deep[i as int]);
        }
        encode_line(out, tag, &l[i]);
        proof {
            assert(out@ =~= prefix + enc_list(tag, deep.take(i as int + 1)));
        }
        i = i + 1;
    }
    proof {
        assert(l.deep_view().take(l@.len() as int) =~= l.deep_view());
    }
}

/// Serialize the manifest to its persisted bytes.
pub fn encode(a: &Atlas) -> (out: Vec<u8>)
    ensures
        out@ == spec_encode(a.images.deep_view(), a.dirs.deep_view()),
{
    let mut out: Vec<u8> = Vec::new();
    encode_list(&mut out, 105, &a.images);
    encode_list(&mut out, 100, &a.dirs);
    proof {
        assert(out@ =~= spec_encode(a.images.deep_view(), a.dirs.deep_view()));
    }
    out
}

/// Parse persisted bytes back into a manifest. Yields `None` exactly when
/// the bytes are not a well-formed encoding.
pub fn decode(s: &Vec<u8>) -> (r: Option<Atlas>)
    ensures
        match r {
            Option::Some(a) => spec_parse(s@)
                == Option::Some((a.images.deep_view(), a.dirs.deep_view())),
            Option::None => spec_parse(s@) is None,
        },
{
    broadcast use crate::paths::lemma_deep_len, crate::paths::lemma_deep_index;

    let mut imgs: Vec<Vec<u8>> = Vec::new();
    let mut dirs: Vec<Vec<u8>> = Vec::new();
    let mut cur: Vec<u8> = Vec::new();
    let mut tag: u8 = 0;
    let mut i: usize = 0;
    proof {
        assert(imgs.deep_view() =~= Seq::<Seq<u8>>::empty());
        assert(dirs.deep_view() =~= Seq::<Seq<u8>>::empty());
    }
    loop
        invariant
            i <= s@.len(),
            tag == 0 || tag == 105 || tag == 100,
            tag == 0 ==> cur@.len() == 0,
            spec_parse(s@) == sm(
                s@,
                i as int,
                if tag == 0 { Option::<u8>::None } else { Option::Some(tag) },
                cur@,
                imgs.deep_view(),
                dirs.deep_view(),
            ),
        decreases s@.len() - i,
    {
        if i >= s.len() {
            if tag == 0 {
                proof {
                    assert(cur@ =~= Seq::<u8>::empty());
                }
                return Option::Some(Atlas { images: imgs, dirs: dirs });
            } else {
                return Option::None;
            }
        }
        let b = s[i];
        if tag == 0 {
            if b == 105 || b == 100 {
                proof {
                    assert(cur@ =~= Seq::<u8>::empty());
                }
                tag = b;
                i = i + 1;
            } else {
                return Option::None;
            }
        } else if b == 10 {
            let ghost old_imgs = imgs.deep_view();
            let ghost old_dirs = dirs.deep_view();
            let ghost old_cur = cur@;
            let done = cur;
            cur = Vec::new();
            if tag == 105 {
                let ghost pre = imgs;
                imgs.push(done);
                proof {
                    crate::paths::lemma_deep_push(pre, imgs, old_cur);
                }
            } else {
                let ghost pre = dirs;
                dirs.push(done);
                proof {
                    crate::paths::lemma_deep_push(pre, dirs, old_cur);
                }
            }
            tag = 0;
            i = i + 1;
            proof {
                assert(cur@ =~= Seq::<u8>::empty());
            }
        } else if b == 92 {
            if i + 1 < s.len() && (s[i + 1] == 92 || s[i + 1] == 110) {
                let d: u8 = if s[i + 1] == 92 { 92 } else { 10 };
                cur.push(d);
                i = i + 2;
            } else {
                return Option::None;
            }
        } else {
            cur.push(b);
            i = i + 1;
        }
    }
}

/// Round trip: decoding an encoded manifest gives the manifest back.
pub proof fn lemma_round_trip(imgs: Seq<Seq<u8>>, dirs: Seq<Seq<u8>>)
    ensures
        spec_parse(spec_encode(imgs, dirs)) == Option::Some((imgs, dirs)),
{
    let s = spec_encode(imgs, dirs);
    assert(s.skip(0) =~= enc_list(105u8, imgs) + enc_list(100u8, dirs));
    lemma_sm_imgs(s, 0, Seq::<Seq<u8>>::empty(), imgs, dirs);
    assert(Seq::<Seq<u8>>::empty() + imgs =~= imgs);
}

} // verus!
