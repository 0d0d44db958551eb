//! The structural folder and the AST builder.
//!
//! The folder resolves bracket nesting: a single forward pass with an
//! explicit open-bracket stack turns the flat token sequence into a tree of
//! folded nodes, rejecting a close marker of the wrong kind, a close with
//! no open, an open with no close, and nesting past the folder's bound.
//! Comments are retained as leaf nodes in whatever scope they occur.
//!
//! The builder turns the folded tree into top-level declarations: retained
//! comments, typing annotations (body kept opaque for the out-of-scope
//! typing stage), and word declarations whose values are expressions. A
//! leading sigil sequence deterministically selects the expression form.

use vstd::prelude::*;
use crate::errors::{StructureError, ParseError};
use crate::tokenizer::{Token, TokenV, toks_view};
use crate::numeric_literal::{NumericLiteral, NumericLiteralV, decode_spec};

verus! {

broadcast use vstd::std_specs::vec::group_vec_axioms, vstd::seq::group_seq_axioms;

/// The deepest bracket nesting the folder accepts; deeper input is a
/// resource-exhaustion failure reported as `NestingTooDeep`.
pub const MAX_NESTING_DEPTH: usize = 64;

/// A token, or a bracket group of further folded nodes.
#[derive(Debug, PartialEq)]
pub enum FoldedStreamNode {
    Comment(String),
    Ident(String),
    NumericLiteral(String),
    CharLiteral(char),
    StringLiteral(String),
    Dollar,
    Colon,
    Octothorp,
    AtSign,
    QMark,
    Square(Vec<FoldedStreamNode>),
    Curly(Vec<FoldedStreamNode>),
}

/// Mathematical image of a `FoldedStreamNode`.
pub enum FoldedV {
    Comment(Seq<char>),
    Ident(Seq<char>),
    NumericLiteral(Seq<char>),
    CharLiteral(char),
    StringLiteral(Seq<char>),
    Dollar,
    Colon,
    Octothorp,
    AtSign,
    QMark,
    Square(Seq<FoldedV>),
    Curly(Seq<FoldedV>),
}

pub open spec fn folded_view(n: FoldedStreamNode) -> FoldedV
    decreases n,
{
    match n {
        FoldedStreamNode::Comment(s) => FoldedV::Comment(s@),
        FoldedStreamNode::Ident(s) => FoldedV::Ident(s@),
        FoldedStreamNode::NumericLiteral(s) => FoldedV::NumericLiteral(s@),
        FoldedStreamNode::CharLiteral(c) => FoldedV::CharLiteral(c),
        FoldedStreamNode::StringLiteral(s) => FoldedV::StringLiteral(s@),
        FoldedStreamNode::Dollar => FoldedV::Dollar,
        FoldedStreamNode::Colon => FoldedV::Colon,
        FoldedStreamNode::Octothorp => FoldedV::Octothorp,
        FoldedStreamNode::AtSign => FoldedV::AtSign,
        FoldedStreamNode::QMark => FoldedV::QMark,
        FoldedStreamNode::Square(v) => FoldedV::Square(
            Seq::new(
                v@.len(),
                |i: int|
                    if 0 <= i < v@.len() {
                        folded_view(v@[i])
                    } else {
                        FoldedV::Dollar
                    },
            ),
        ),
        FoldedStreamNode::Curly(v) => FoldedV::Curly(
            Seq::new(
                v@.len(),
                |i: int|
                    if 0 <= i < v@.len() {
                        folded_view(v@[i])
                    } else {
                        FoldedV::Dollar
                    },
            ),
        ),
    }
}

impl View for FoldedStreamNode {
    type V = FoldedV;

    open spec fn view(&self) -> FoldedV {
        folded_view(*self)
    }
}

/// The views of a folded node sequence.
pub open spec fn folded_views(ns: Seq<FoldedStreamNode>) -> Seq<FoldedV> {
    ns.map_values(|n: FoldedStreamNode| folded_view(n))
}

// ---------------------------------------------------------------------------
// The folding machine
// ---------------------------------------------------------------------------

/// One suspended scope while a bracket group is open.
struct Frame {
    /// `true` if the open bracket was square.
    square: bool,
    /// Token offset of the open bracket, for error reporting.
    open_at: usize,
    /// The nodes of the enclosing scope, resumed at the close.
    saved: Vec<FoldedStreamNode>,
}

/// Spec image of a `Frame`.
pub struct FrameV {
    pub square: bool,
    pub open_at: int,
    pub saved: Seq<FoldedV>,
}

spec fn frame_view(f: Frame) -> FrameV {
    FrameV { square: f.square, open_at: f.open_at as int, saved: folded_views(f.saved@) }
}

spec fn frames_view(fs: Seq<Frame>) -> Seq<FrameV> {
    fs.map_values(|f: Frame| frame_view(f))
}

/// The folding machine: reads `ts[i..]` with `frames` of open brackets
/// and `cur` the nodes of the innermost scope.
pub open spec fn fold_run(
    ts: Seq<TokenV>,
    i: int,
    frames: Seq<FrameV>,
    cur: Seq<FoldedV>,
) -> Result<Seq<FoldedV>, StructureError>
    decreases ts.len() - i,
{
    if i < 0 || i >= ts.len() {
        if frames.len() == 0 {
            Ok(cur)
        } else {
            Err(StructureError::Unterminated { open_at: frames.last().open_at as usize })
        }
    } else {
        match ts[i] {
            TokenV::Square(open) => {
                if open {
                    if frames.len() >= MAX_NESTING_DEPTH {
                        Err(StructureError::NestingTooDeep { at: i as usize })
                    } else {
                        fold_run(
                            ts,
                            i + 1,
                            frames.push(FrameV { square: true, open_at: i, saved: cur }),
                            Seq::empty(),
                        )
                    }
                } else {
                    if frames.len() == 0 {
                        Err(StructureError::UnexpectedClose { at: i as usize })
                    } else if !frames.last().square {
                        Err(StructureError::MismatchedClose { at: i as usize })
                    } else {
                        fold_run(
                            ts,
                            i + 1,
                            frames.drop_last(),
                            frames.last().saved.push(FoldedV::Square(cur)),
                        )
                    }
                }
            },
            TokenV::Curly(open) => {
                if open {
                    if frames.len() >= MAX_NESTING_DEPTH {
                        Err(StructureError::NestingTooDeep { at: i as usize })
                    } else {
                        fold_run(
                            ts,
                            i + 1,
                            frames.push(FrameV { square: false, open_at: i, saved: cur }),
                            Seq::empty(),
                        )
                    }
                } else {
                    if frames.len() == 0 {
                        Err(StructureError::UnexpectedClose { at: i as usize })
                    } else if frames.last().square {
                        Err(StructureError::MismatchedClose { at: i as usize })
                    } else {
                        fold_run(
                            ts,
                            i + 1,
                            frames.drop_last(),
                            frames.last().saved.push(FoldedV::Curly(cur)),
                        )
                    }
                }
            },
            TokenV::Comment(s) => fold_run(ts, i + 1, frames, cur.push(FoldedV::Comment(s))),
            TokenV::Ident(s) => fold_run(ts, i + 1, frames, cur.push(FoldedV::Ident(s))),
            TokenV::NumericLiteral(s) => fold_run(
                ts,
                i + 1,
                frames,
                cur.push(FoldedV::NumericLiteral(s)),
            ),
            TokenV::CharLiteral(c) => fold_run(ts, i + 1, frames, cur.push(FoldedV::CharLiteral(c))),
            TokenV::StringLiteral(s) => fold_run(
                ts,
                i + 1,
                frames,
                cur.push(FoldedV::StringLiteral(s)),
            ),
            TokenV::Dollar => fold_run(ts, i + 1, frames, cur.push(FoldedV::Dollar)),
            TokenV::Colon => fold_run(ts, i + 1, frames, cur.push(FoldedV::Colon)),
            TokenV::Octothorp => fold_run(ts, i + 1, frames, cur.push(FoldedV::Octothorp)),
            TokenV::AtSign => fold_run(ts, i + 1, frames, cur.push(FoldedV::AtSign)),
            TokenV::QMark => fold_run(ts, i + 1, frames, cur.push(FoldedV::QMark)),
        }
    }
}

/// What folding a whole token sequence yields.
pub open spec fn fold_spec(ts: Seq<TokenV>) -> Result<Seq<FoldedV>, StructureError> {
    fold_run(ts, 0, Seq::empty(), Seq::empty())
}

proof fn lemma_folded_view_square(group: FoldedStreamNode, cv: Seq<FoldedV>)
    requires
        group matches FoldedStreamNode::Square(v) && folded_views(v@) == cv,
    ensures
        folded_view(group) == FoldedV::Square(cv),
{
    let v = group->Square_0;
    assert(folded_view(group) matches FoldedV::Square(_));
    assert(folded_view(group)->Square_0 =~= folded_views(v@));
}

proof fn lemma_folded_view_curly(group: FoldedStreamNode, cv: Seq<FoldedV>)
    requires
        group matches FoldedStreamNode::Curly(v) && folded_views(v@) == cv,
    ensures
        folded_view(group) == FoldedV::Curly(cv),
{
    let v = group->Curly_0;
    assert(folded_view(group) matches FoldedV::Curly(_));
    assert(folded_view(group)->Curly_0 =~= folded_views(v@));
}

/// Folds a token stream into a tree of grouped nodes, or reports the
/// structural fault: a mismatched or unmatched close, an unterminated
/// open, or nesting past the bound.
pub fn fold_stream(stream: Vec<Token>) -> (r: Result<Vec<FoldedStreamNode>, StructureError>)
    ensures
        r matches Ok(v) ==> fold_spec(toks_view(stream@)) == Ok::<_, StructureError>(
            folded_views(v@),
        ),
        r matches Err(e) ==> fold_spec(toks_view(stream@)) == Err::<Seq<FoldedV>, _>(e),
{
    let ghost ts = toks_view(stream@);
    let n = stream.len();
    let mut frames: Vec<Frame> = Vec::new();
    let mut cur: Vec<FoldedStreamNode> = Vec::new();
    let mut i: usize = 0;
    proof {
        assert(frames_view(frames@) =~= Seq::<FrameV>::empty());
        assert(folded_views(cur@) =~= Seq::<FoldedV>::empty());
    }
    while i < n
        invariant
            i <= n == stream@.len(),
            ts == toks_view(stream@),
            frames@.len() <= MAX_NESTING_DEPTH,
            fold_spec(ts) == fold_run(ts, i as int, frames_view(frames@), folded_views(cur@)),
        decreases n - i,
    {
        proof {
            assert(ts[i as int] == stream@[i as int]@);
        }
        let next: FoldedStreamNode = match &stream[i] {
            Token::Square(open) => {
                if *open {
                    if frames.len() >= MAX_NESTING_DEPTH {
                        return Err(StructureError::NestingTooDeep { at: i });
                    }
                    proof {
                        let fv = frames_view(frames@);
                        let newf = Frame { square: true, open_at: i, saved: cur };
                        assert(frames_view(frames@.push(newf)) =~= fv.push(frame_view(newf)));
                        assert(folded_views(Seq::<FoldedStreamNode>::empty())
                            =~= Seq::<FoldedV>::empty());
                    }
                    frames.push(Frame { square: true, open_at: i, saved: cur });
                    cur = Vec::new();
                    i = i + 1;
                    continue;
                } else {
                    let ghost fall = frames@;
                    match frames.pop() {
                        None => {
                            return Err(StructureError::UnexpectedClose { at: i });
                        },
                        Some(f) => {
                            if !f.square {
                                return Err(StructureError::MismatchedClose { at: i });
                            }
                            let ghost fview = frame_view(f);
                            let ghost fprev = frames@;
                            let ghost cv_old = folded_views(cur@);
                            proof {
                                assert(fall =~= fprev.push(f));
                                assert(frames_view(fall) =~= frames_view(fprev).push(fview));
                                assert(frames_view(fall).last() == fview);
                                assert(frames_view(fall).drop_last() =~= frames_view(fprev));
                            }
                            let group = FoldedStreamNode::Square(cur);
                            let mut saved = f.saved;
                            proof {
                                lemma_folded_view_square(group, cv_old);
                                assert(folded_views(saved@.push(group)) =~= folded_views(
                                    saved@,
                                ).push(folded_view(group)));
                            }
                            saved.push(group);
                            cur = saved;
                            i = i + 1;
                            continue;
                        },
                    }
                }
            },
            Token::Curly(open) => {
                if *open {
                    if frames.len() >= MAX_NESTING_DEPTH {
                        return Err(StructureError::NestingTooDeep { at: i });
                    }
                    proof {
                        let fv = frames_view(frames@);
                        let newf = Frame { square: false, open_at: i, saved: cur };
                        assert(frames_view(frames@.push(newf)) =~= fv.push(frame_view(newf)));
                        assert(folded_views(Seq::<FoldedStreamNode>::empty())
                            =~= Seq::<FoldedV>::empty());
                    }
                    frames.push(Frame { square: false, open_at: i, saved: cur });
                    cur = Vec::new();
                    i = i + 1;
                    continue;
                } else {
                    let ghost fall = frames@;
                    match frames.pop() {
                        None => {
                            return Err(StructureError::UnexpectedClose { at: i });
                        },
                        Some(f) => {
                            if f.square {
                                return Err(StructureError::MismatchedClose { at: i });
                            }
                            let ghost fview = frame_view(f);
                            let ghost fprev = frames@;
                            let ghost cv_old = folded_views(cur@);
                            proof {
                                assert(fall =~= fprev.push(f));
                                assert(frames_view(fall) =~= frames_view(fprev).push(fview));
                                assert(frames_view(fall).last() == fview);
                                assert(frames_view(fall).drop_last() =~= frames_view(fprev));
                            }
                            let group = FoldedStreamNode::Curly(cur);
                            let mut saved = f.saved;
                            proof {
                                lemma_folded_view_curly(group, cv_old);
                                assert(folded_views(saved@.push(group)) =~= folded_views(
                                    saved@,
                                ).push(folded_view(group)));
                            }
                            saved.push(group);
                            cur = saved;
                            i = i + 1;
                            continue;
                        },
                    }
                }
            },
            Token::Comment(s) => FoldedStreamNode::Comment(s.clone()),
            Token::Ident(s) => FoldedStreamNode::Ident(s.clone()),
            Token::NumericLiteral(s) => FoldedStreamNode::NumericLiteral(s.clone()),
            Token::CharLiteral(c) => FoldedStreamNode::CharLiteral(*c),
            Token::StringLiteral(s) => FoldedStreamNode::StringLiteral(s.clone()),
            Token::Dollar => FoldedStreamNode::Dollar,
            Token::Colon => FoldedStreamNode::Colon,
            Token::Octothorp => FoldedStreamNode::Octothorp,
            Token::AtSign => FoldedStreamNode::AtSign,
            Token::QMark => FoldedStreamNode::QMark,
        };
        proof {
            assert(folded_views(cur@.push(next)) =~= folded_views(cur@).push(folded_view(next)));
        }
        cur.push(next);
        i = i + 1;
    }
    if frames.len() == 0 {
        Ok(cur)
    } else {
        let open_at = frames[frames.len() - 1].open_at;
        proof {
            assert(frames_view(frames@).last() == frame_view(frames@.last()));
        }
        Err(StructureError::Unterminated { open_at })
    }
}

// ---------------------------------------------------------------------------
// The bracket balance law
// ---------------------------------------------------------------------------

/// Proper nesting of the bracket skeleton, leaves ignored: each close
/// matches the kind of the innermost open, and every open is closed.
pub open spec fn balanced_from(ts: Seq<TokenV>, i: int, stack: Seq<bool>) -> bool
    decreases ts.len() - i,
{
    if i < 0 || i >= ts.len() {
        stack.len() == 0
    } else {
        match ts[i] {
            TokenV::Square(open) => {
                if open {
                    balanced_from(ts, i + 1, stack.push(true))
                } else {
                    stack.len() > 0 && stack.last() == true && balanced_from(
                        ts,
                        i + 1,
                        stack.drop_last(),
                    )
                }
            },
            TokenV::Curly(open) => {
                if open {
                    balanced_from(ts, i + 1, stack.push(false))
                } else {
                    stack.len() > 0 && stack.last() == false && balanced_from(
                        ts,
                        i + 1,
                        stack.drop_last(),
                    )
                }
            },
            _ => balanced_from(ts, i + 1, stack),
        }
    }
}

pub open spec fn balanced(ts: Seq<TokenV>) -> bool {
    balanced_from(ts, 0, Seq::empty())
}

/// The bracket nesting depth never exceeds the folder's bound.
pub open spec fn fits_depth_from(ts: Seq<TokenV>, i: int, d: int) -> bool
    decreases ts.len() - i,
{
    if i < 0 || i >= ts.len() {
        true
    } else {
        match ts[i] {
            TokenV::Square(open) => {
                if open {
                    d + 1 <= MAX_NESTING_DEPTH && fits_depth_from(ts, i + 1, d + 1)
                } else {
                    fits_depth_from(ts, i + 1, d - 1)
                }
            },
            TokenV::Curly(open) => {
                if open {
                    d + 1 <= MAX_NESTING_DEPTH && fits_depth_from(ts, i + 1, d + 1)
                } else {
                    fits_depth_from(ts, i + 1, d - 1)
                }
            },
            _ => fits_depth_from(ts, i + 1, d),
        }
    }
}

pub open spec fn fits_depth(ts: Seq<TokenV>) -> bool {
    fits_depth_from(ts, 0, 0)
}

proof fn lemma_fold_run_iff_balanced(ts: Seq<TokenV>, i: int, frames: Seq<FrameV>, cur: Seq<FoldedV>)
    requires
        0 <= i <= ts.len(),
    ensures
        (fold_run(ts, i, frames, cur) is Ok) <==> (balanced_from(
            ts,
            i,
            frames.map_values(|f: FrameV| f.square),
        ) && fits_depth_from(ts, i, frames.len() as int)),
    decreases ts.len() - i,
{
    let stack = frames.map_values(|f: FrameV| f.square);
    if i < ts.len() {
        match ts[i] {
            TokenV::Square(open) => {
                if open {
                    let newf = FrameV { square: true, open_at: i, saved: cur };
                    assert(frames.push(newf).map_values(|f: FrameV| f.square) =~= stack.push(
                        true,
                    ));
                    if frames.len() < MAX_NESTING_DEPTH {
                        lemma_fold_run_iff_balanced(ts, i + 1, frames.push(newf), Seq::empty());
                    }
                } else {
                    if frames.len() > 0 {
                        assert(stack.last() == frames.last().square);
                        assert(frames.drop_last().map_values(|f: FrameV| f.square) =~= stack
                            .drop_last());
                        if frames.last().square {
                            lemma_fold_run_iff_balanced(
                                ts,
                                i + 1,
                                frames.drop_last(),
                                frames.last().saved.push(FoldedV::Square(cur)),
                            );
                        }
                    }
                }
            },
            TokenV::Curly(open) => {
                if open {
                    let newf = FrameV { square: false, open_at: i, saved: cur };
                    assert(frames.push(newf).map_values(|f: FrameV| f.square) =~= stack.push(
                        false,
                    ));
                    if frames.len() < MAX_NESTING_DEPTH {
                        lemma_fold_run_iff_balanced(ts, i + 1, frames.push(newf), Seq::empty());
                    }
                } else {
                    if frames.len() > 0 {
                        assert(stack.last() == frames.last().square);
                        assert(frames.drop_last().map_values(|f: FrameV| f.square) =~= stack
                            .drop_last());
                        if !frames.last().square {
                            lemma_fold_run_iff_balanced(
                                ts,
                                i + 1,
                                frames.drop_last(),
                                frames.last().saved.push(FoldedV::Curly(cur)),
                            );
                        }
                    }
                }
            },
            TokenV::Comment(s) => {
                lemma_fold_run_iff_balanced(ts, i + 1, frames, cur.push(FoldedV::Comment(s)));
            },
            TokenV::Ident(s) => {
                lemma_fold_run_iff_balanced(ts, i + 1, frames, cur.push(FoldedV::Ident(s)));
            },
            TokenV::NumericLiteral(s) => {
                lemma_fold_run_iff_balanced(
                    ts,
                    i + 1,
                    frames,
                    cur.push(FoldedV::NumericLiteral(s)),
                );
            },
            TokenV::CharLiteral(c) => {
                lemma_fold_run_iff_balanced(ts, i + 1, frames, cur.push(FoldedV::CharLiteral(c)));
            },
            TokenV::StringLiteral(s) => {
                lemma_fold_run_iff_balanced(
                    ts,
                    i + 1,
                    frames,
                    cur.push(FoldedV::StringLiteral(s)),
                );
            },
            TokenV::Dollar => {
                lemma_fold_run_iff_balanced(ts, i + 1, frames, cur.push(FoldedV::Dollar));
            },
            TokenV::Colon => {
                lemma_fold_run_iff_balanced(ts, i + 1, frames, cur.push(FoldedV::Colon));
            },
            TokenV::Octothorp => {
                lemma_fold_run_iff_balanced(ts, i + 1, frames, cur.push(FoldedV::Octothorp));
            },
            TokenV::AtSign => {
                lemma_fold_run_iff_balanced(ts, i + 1, frames, cur.push(FoldedV::AtSign));
            },
            TokenV::QMark => {
                lemma_fold_run_iff_balanced(ts, i + 1, frames, cur.push(FoldedV::QMark));
            },
        }
    }
}

/// The bracket balance law: folding succeeds exactly when the token
/// sequence's brackets are balanced, properly nested by kind, and within
/// the nesting bound; any imbalance yields a `StructureError`.
pub proof fn lemma_fold_succeeds_iff_balanced(ts: Seq<TokenV>)
    ensures
        (fold_spec(ts) is Ok) <==> (balanced(ts) && fits_depth(ts)),
{
    lemma_fold_run_iff_balanced(ts, 0, Seq::empty(), Seq::empty());
    assert(Seq::<FrameV>::empty().map_values(|f: FrameV| f.square) =~= Seq::<bool>::empty());
}

// ---------------------------------------------------------------------------
// Deep copies of folded nodes
// ---------------------------------------------------------------------------

/// Copies a folded node, tree and all.
pub fn clone_folded(n: &FoldedStreamNode) -> (r: FoldedStreamNode)
    ensures
        folded_view(r) == folded_view(*n),
    decreases n, 0int,
{
    match n {
        FoldedStreamNode::Comment(s) => FoldedStreamNode::Comment(s.clone()),
        FoldedStreamNode::Ident(s) => FoldedStreamNode::Ident(s.clone()),
        FoldedStreamNode::NumericLiteral(s) => FoldedStreamNode::NumericLiteral(s.clone()),
        FoldedStreamNode::CharLiteral(c) => FoldedStreamNode::CharLiteral(*c),
        FoldedStreamNode::StringLiteral(s) => FoldedStreamNode::StringLiteral(s.clone()),
        FoldedStreamNode::Dollar => FoldedStreamNode::Dollar,
        FoldedStreamNode::Colon => FoldedStreamNode::Colon,
        FoldedStreamNode::Octothorp => FoldedStreamNode::Octothorp,
        FoldedStreamNode::AtSign => FoldedStreamNode::AtSign,
        FoldedStreamNode::QMark => FoldedStreamNode::QMark,
        FoldedStreamNode::Square(v) => {
            let copy = clone_folded_vec(v);
            let group = FoldedStreamNode::Square(copy);
            proof {
                lemma_folded_view_square(group, folded_views(v@));
                lemma_folded_view_square(*n, folded_views(v@));
            }
            group
        },
        FoldedStreamNode::Curly(v) => {
            let copy = clone_folded_vec(v);
            let group = FoldedStreamNode::Curly(copy);
            proof {
                lemma_folded_view_curly(group, folded_views(v@));
                lemma_folded_view_curly(*n, folded_views(v@));
            }
            group
        },
    }
}

/// Copies a sequence of folded nodes.
pub fn clone_folded_vec(v: &Vec<FoldedStreamNode>) -> (r: Vec<FoldedStreamNode>)
    ensures
        folded_views(r@) == folded_views(v@),
    decreases v, 1int,
{
    let mut out: Vec<FoldedStreamNode> = Vec::new();
    let n = v.len();
    let mut i: usize = 0;
    while i < n
        invariant
            i <= n == v@.len(),
            folded_views(out@) == folded_views(v@).subrange(0, i as int),
        decreases n - i,
    {
        let c = clone_folded(&v[i]);
        proof {
            assert(folded_views(out@.push(c)) =~= folded_views(out@).push(folded_view(c)));
            assert(folded_views(out@).push(folded_view(v@[i as int])) =~= folded_views(
                v@,
            ).subrange(0, i as int + 1));
        }
        out.push(c);
        i = i + 1;
    }
    proof {
        assert(folded_views(v@).subrange(0, n as int) =~= folded_views(v@));
    }
    out
}

// ---------------------------------------------------------------------------
// The abstract syntax tree
// ---------------------------------------------------------------------------

/// A component of a stack-effect type annotation. The annotation grammar
/// itself belongs to the out-of-scope typing stage; the builder only fills
/// the plain type name.
#[derive(Debug, PartialEq)]
pub struct TypeComponent {
    pub variable: Option<String>,
    pub type_name_components: Vec<String>,
    pub explicit: bool,
    pub poly: bool,
}

/// Spec image of a `TypeComponent`.
pub struct TypeComponentV {
    pub variable: Option<Seq<char>>,
    pub type_name_components: Seq<Seq<char>>,
    pub explicit: bool,
    pub poly: bool,
}

impl View for TypeComponent {
    type V = TypeComponentV;

    open spec fn view(&self) -> TypeComponentV {
        TypeComponentV {
            variable: match self.variable {
                Some(ref s) => Some(s@),
                None => None,
            },
            type_name_components: self.type_name_components@.map_values(|s: String| s@),
            explicit: self.explicit,
            poly: self.poly,
        }
    }
}

/// One entry of a stack-effect annotation: a push or a pop of a typed
/// value. Consumed by the out-of-scope typing stage.
#[derive(Debug, PartialEq)]
pub enum TypingASTNode {
    Push(TypeComponent),
    Pop(TypeComponent),
}

/// An expression or declaration form. The sigil sequence before an
/// identifier selects the declaration forms; bare identifiers, literals
/// and groups stand for themselves.
#[derive(Debug, PartialEq)]
pub enum ASTNode {
    /// `{ ... }`: an executable block.
    Curly(Vec<ASTNode>),
    /// `[ ... ]`: a literal list.
    Square(Vec<ASTNode>),
    Ident(String),
    NumericLiteral(NumericLiteral),
    CharLiteral(char),
    StringLiteral(String),
    /// `::name`: a plain binding.
    Dec(String),
    /// `::name : Type`: a typed binding.
    DecTyped(String, TypeComponent),
    /// `:#name[size]`: pointer allocation with static size.
    DecPointerSized(String, Vec<ASTNode>),
    /// `:#name[]`: pointer allocation with dynamic size.
    DecPointerVariable(String),
    /// `:#name`: a raw pointer declaration.
    DecPointer(String),
    /// `$:name`: value assignment through a binding.
    Assign(String),
    /// `$:name[index]`: indexed assignment.
    IndexAssign(String, Vec<ASTNode>),
    /// `#name`: address-of.
    Address(String),
    /// `$name`: dereference.
    ReadAddress(String),
}

/// Mathematical image of an `ASTNode`.
pub enum ASTV {
    Curly(Seq<ASTV>),
    Square(Seq<ASTV>),
    Ident(Seq<char>),
    NumericLiteral(NumericLiteralV),
    CharLiteral(char),
    StringLiteral(Seq<char>),
    Dec(Seq<char>),
    DecTyped(Seq<char>, TypeComponentV),
    DecPointerSized(Seq<char>, Seq<ASTV>),
    DecPointerVariable(Seq<char>),
    DecPointer(Seq<char>),
    Assign(Seq<char>),
    IndexAssign(Seq<char>, Seq<ASTV>),
    Address(Seq<char>),
    ReadAddress(Seq<char>),
}

pub open spec fn ast_view(n: ASTNode) -> ASTV
    decreases n,
{
    match n {
        ASTNode::Curly(v) => ASTV::Curly(
            Seq::new(
                v@.len(),
                |i: int|
                    if 0 <= i < v@.len() {
                        ast_view(v@[i])
                    } else {
                        ASTV::CharLiteral(' ')
                    },
            ),
        ),
        ASTNode::Square(v) => ASTV::Square(
            Seq::new(
                v@.len(),
                |i: int|
                    if 0 <= i < v@.len() {
                        ast_view(v@[i])
                    } else {
                        ASTV::CharLiteral(' ')
                    },
            ),
        ),
        ASTNode::Ident(s) => ASTV::Ident(s@),
        ASTNode::NumericLiteral(l) => ASTV::NumericLiteral(l@),
        ASTNode::CharLiteral(c) => ASTV::CharLiteral(c),
        ASTNode::StringLiteral(s) => ASTV::StringLiteral(s@),
        ASTNode::Dec(s) => ASTV::Dec(s@),
        ASTNode::DecTyped(s, t) => ASTV::DecTyped(s@, t@),
        ASTNode::DecPointerSized(s, v) => ASTV::DecPointerSized(
            s@,
            Seq::new(
                v@.len(),
                |i: int|
                    if 0 <= i < v@.len() {
                        ast_view(v@[i])
                    } else {
                        ASTV::CharLiteral(' ')
                    },
            ),
        ),
        ASTNode::DecPointerVariable(s) => ASTV::DecPointerVariable(s@),
        ASTNode::DecPointer(s) => ASTV::DecPointer(s@),
        ASTNode::Assign(s) => ASTV::Assign(s@),
        ASTNode::IndexAssign(s, v) => ASTV::IndexAssign(
            s@,
            Seq::new(
                v@.len(),
                |i: int|
                    if 0 <= i < v@.len() {
                        ast_view(v@[i])
                    } else {
                        ASTV::CharLiteral(' ')
                    },
            ),
        ),
        ASTNode::Address(s) => ASTV::Address(s@),
        ASTNode::ReadAddress(s) => ASTV::ReadAddress(s@),
    }
}

impl View for ASTNode {
    type V = ASTV;

    open spec fn view(&self) -> ASTV {
        ast_view(*self)
    }
}

pub open spec fn ast_views(ns: Seq<ASTNode>) -> Seq<ASTV> {
    ns.map_values(|n: ASTNode| ast_view(n))
}

/// The type component the builder makes of a bare type name.
pub open spec fn type_component_of(name: Seq<char>) -> TypeComponentV {
    TypeComponentV {
        variable: None,
        type_name_components: seq![name],
        explicit: false,
        poly: false,
    }
}

// ---------------------------------------------------------------------------
// Expression parsing
// ---------------------------------------------------------------------------

/// How many folded nodes the expression starting at `i` spans when it
/// parses: the sigil forms consume their sigils, identifier and optional
/// trailing group; everything else is one node.
pub open spec fn step_len(ns: Seq<FoldedV>, i: int) -> int {
    if i < 0 || i >= ns.len() {
        1
    } else {
        match ns[i] {
            FoldedV::Colon => {
                if i + 1 < ns.len() && ns[i + 1] is Colon {
                    if i + 3 < ns.len() && ns[i + 3] is Colon {
                        5
                    } else {
                        3
                    }
                } else if i + 1 < ns.len() && ns[i + 1] is Octothorp {
                    if i + 3 < ns.len() && ns[i + 3] is Square {
                        4
                    } else {
                        3
                    }
                } else {
                    1
                }
            },
            FoldedV::Dollar => {
                if i + 1 < ns.len() && ns[i + 1] is Colon {
                    if i + 3 < ns.len() && ns[i + 3] is Square {
                        4
                    } else {
                        3
                    }
                } else {
                    2
                }
            },
            FoldedV::Octothorp => 2,
            _ => 1,
        }
    }
}

/// What the expression starting at `ns[i]` parses to. The sigil dispatch:
/// `::name` is `Dec`, `::name:Type` is `DecTyped`, `:#name[size]` is
/// `DecPointerSized`, `:#name[]` is `DecPointerVariable`, `:#name` is
/// `DecPointer`, `$:name` is `Assign`, `$:name[index]` is `IndexAssign`,
/// `#name` is `Address`, `$name` is `ReadAddress`; any other sigil
/// sequence is a fatal parse error.
pub open spec fn parse_one_spec(ns: Seq<FoldedV>, i: int) -> Result<ASTV, ParseError>
    decreases ns, 0int, 0int,
{
    let n = ns.len() as int;
    if i < 0 || i >= n {
        Err(ParseError::UnexpectedEnd { at: ns.len() as usize })
    } else {
        match ns[i] {
            FoldedV::Curly(ch) => match parse_all_from(ch, 0) {
                Ok(xs) => Ok(ASTV::Curly(xs)),
                Err(e) => Err(e),
            },
            FoldedV::Square(ch) => match parse_all_from(ch, 0) {
                Ok(xs) => Ok(ASTV::Square(xs)),
                Err(e) => Err(e),
            },
            FoldedV::Ident(s) => Ok(ASTV::Ident(s)),
            FoldedV::NumericLiteral(t) => match decode_spec(t) {
                Ok(v) => Ok(ASTV::NumericLiteral(v)),
                Err(e) => Err(ParseError::Literal { at: i as usize, err: e }),
            },
            FoldedV::CharLiteral(c) => Ok(ASTV::CharLiteral(c)),
            FoldedV::StringLiteral(s) => Ok(ASTV::StringLiteral(s)),
            FoldedV::Comment(_) => Err(ParseError::MalformedSigils { at: i as usize }),
            FoldedV::AtSign => Err(ParseError::MalformedSigils { at: i as usize }),
            FoldedV::QMark => Err(ParseError::MalformedSigils { at: i as usize }),
            FoldedV::Colon => {
                if i + 1 >= n {
                    Err(ParseError::UnexpectedEnd { at: ns.len() as usize })
                } else if ns[i + 1] is Colon {
                    if i + 2 >= n {
                        Err(ParseError::UnexpectedEnd { at: ns.len() as usize })
                    } else if !(ns[i + 2] is Ident) {
                        Err(ParseError::MissingIdent { at: (i + 2) as usize })
                    } else if i + 3 < n && ns[i + 3] is Colon {
                        if i + 4 >= n {
                            Err(ParseError::UnexpectedEnd { at: ns.len() as usize })
                        } else if !(ns[i + 4] is Ident) {
                            Err(ParseError::MissingIdent { at: (i + 4) as usize })
                        } else {
                            Ok(
                                ASTV::DecTyped(
                                    ns[i + 2]->Ident_0,
                                    type_component_of(ns[i + 4]->Ident_0),
                                ),
                            )
                        }
                    } else {
                        Ok(ASTV::Dec(ns[i + 2]->Ident_0))
                    }
                } else if ns[i + 1] is Octothorp {
                    if i + 2 >= n {
                        Err(ParseError::UnexpectedEnd { at: ns.len() as usize })
                    } else if !(ns[i + 2] is Ident) {
                        Err(ParseError::MissingIdent { at: (i + 2) as usize })
                    } else if i + 3 < n && ns[i + 3] is Square {
                        if ns[i + 3]->Square_0.len() == 0 {
                            Ok(ASTV::DecPointerVariable(ns[i + 2]->Ident_0))
                        } else {
                            match parse_all_from(ns[i + 3]->Square_0, 0) {
                                Ok(xs) => Ok(ASTV::DecPointerSized(ns[i + 2]->Ident_0, xs)),
                                Err(e) => Err(e),
                            }
                        }
                    } else {
                        Ok(ASTV::DecPointer(ns[i + 2]->Ident_0))
                    }
                } else {
                    Err(ParseError::MalformedSigils { at: i as usize })
                }
            },
            FoldedV::Dollar => {
                if i + 1 >= n {
                    Err(ParseError::UnexpectedEnd { at: ns.len() as usize })
                } else if ns[i + 1] is Colon {
                    if i + 2 >= n {
                        Err(ParseError::UnexpectedEnd { at: ns.len() as usize })
                    } else if !(ns[i + 2] is Ident) {
                        Err(ParseError::MissingIdent { at: (i + 2) as usize })
                    } else if i + 3 < n && ns[i + 3] is Square {
                        match parse_all_from(ns[i + 3]->Square_0, 0) {
                            Ok(xs) => Ok(ASTV::IndexAssign(ns[i + 2]->Ident_0, xs)),
                            Err(e) => Err(e),
                        }
                    } else {
                        Ok(ASTV::Assign(ns[i + 2]->Ident_0))
                    }
                } else if ns[i + 1] is Ident {
                    Ok(ASTV::ReadAddress(ns[i + 1]->Ident_0))
                } else {
                    Err(ParseError::MalformedSigils { at: i as usize })
                }
            },
            FoldedV::Octothorp => {
                if i + 1 >= n {
                    Err(ParseError::UnexpectedEnd { at: ns.len() as usize })
                } else if ns[i + 1] is Ident {
                    Ok(ASTV::Address(ns[i + 1]->Ident_0))
                } else {
                    Err(ParseError::MissingIdent { at: (i + 1) as usize })
                }
            },
        }
    }
}

/// Parses expressions from `ns[i..]` until the sequence is exhausted,
/// skipping retained comments.
pub open spec fn parse_all_from(ns: Seq<FoldedV>, i: int) -> Result<Seq<ASTV>, ParseError>
    decreases ns, 1int, ns.len() - i,
{
    let n = ns.len() as int;
    if i < 0 || i >= n {
        Ok(Seq::empty())
    } else if ns[i] is Comment {
        parse_all_from(ns, i + 1)
    } else {
        match parse_one_spec(ns, i) {
            Err(e) => Err(e),
            Ok(node) => match parse_all_from(
                ns,
                crate::tokenizer::advance(i, i + step_len(ns, i), n),
            ) {
                Ok(rest) => Ok(seq![node] + rest),
                Err(e) => Err(e),
            },
        }
    }
}

/// What parsing a whole folded sequence yields.
pub open spec fn parse_all_spec(ns: Seq<FoldedV>) -> Result<Seq<ASTV>, ParseError> {
    parse_all_from(ns, 0)
}

proof fn lemma_ast_view_curly(g: ASTNode, cv: Seq<ASTV>)
    requires
        g matches ASTNode::Curly(v) && ast_views(v@) == cv,
    ensures
        ast_view(g) == ASTV::Curly(cv),
{
    assert(ast_view(g) matches ASTV::Curly(_));
    assert(ast_view(g)->Curly_0 =~= ast_views(g->Curly_0@));
}

proof fn lemma_ast_view_square(g: ASTNode, cv: Seq<ASTV>)
    requires
        g matches ASTNode::Square(v) && ast_views(v@) == cv,
    ensures
        ast_view(g) == ASTV::Square(cv),
{
    assert(ast_view(g) matches ASTV::Square(_));
    assert(ast_view(g)->Square_0 =~= ast_views(g->Square_0@));
}

proof fn lemma_ast_view_sized(g: ASTNode, cv: Seq<ASTV>)
    requires
        g matches ASTNode::DecPointerSized(s, v) && ast_views(v@) == cv,
    ensures
        ast_view(g) == ASTV::DecPointerSized(g->DecPointerSized_0@, cv),
{
    assert(ast_view(g) matches ASTV::DecPointerSized(_, _));
    assert(ast_view(g)->DecPointerSized_1 =~= ast_views(g->DecPointerSized_1@));
}

proof fn lemma_ast_view_idx(g: ASTNode, cv: Seq<ASTV>)
    requires
        g matches ASTNode::IndexAssign(s, v) && ast_views(v@) == cv,
    ensures
        ast_view(g) == ASTV::IndexAssign(g->IndexAssign_0@, cv),
{
    assert(ast_view(g) matches ASTV::IndexAssign(_, _));
    assert(ast_view(g)->IndexAssign_1 =~= ast_views(g->IndexAssign_1@));
}

/// Appends a parse result to already-built expressions.
pub open spec fn parse_combine(acc: Seq<ASTV>, r: Result<Seq<ASTV>, ParseError>) -> Result<
    Seq<ASTV>,
    ParseError,
> {
    match r {
        Ok(xs) => Ok(acc + xs),
        Err(e) => Err(e),
    }
}

proof fn lemma_parse_combine_cons(acc: Seq<ASTV>, t: ASTV, r: Result<Seq<ASTV>, ParseError>)
    ensures
        parse_combine(
            acc,
            match r {
                Ok(rest) => Ok::<Seq<ASTV>, ParseError>(seq![t] + rest),
                Err(e) => Err(e),
            },
        ) == parse_combine(acc.push(t), r),
{
    match r {
        Ok(ts) => {
            assert(acc + (seq![t] + ts) =~= acc.push(t) + ts);
        },
        Err(_) => {},
    }
}

impl ASTNode {
    /// Parses one expression from `nodes` starting at `at`; yields the
    /// node and the offset just past what it consumed.
    pub fn new(nodes: &Vec<FoldedStreamNode>, at: usize) -> (r: Result<(ASTNode, usize), ParseError>)
        ensures
            r matches Ok(p) ==> ({
                &&& parse_one_spec(folded_views(nodes@), at as int) == Ok::<ASTV, ParseError>(
                    ast_view(p.0),
                )
                &&& p.1 as int == at + step_len(folded_views(nodes@), at as int)
                &&& at < p.1 <= nodes@.len()
            }),
            r matches Err(e) ==> parse_one_spec(folded_views(nodes@), at as int) == Err::<ASTV, _>(
                e,
            ),
        decreases nodes, 0int, 0int,
    {
        let ghost ns = folded_views(nodes@);
        let n = nodes.len();
        if at >= n {
            return Err(ParseError::UnexpectedEnd { at: n });
        }
        proof {
            assert(ns[at as int] == folded_view(nodes@[at as int]));
        }
        match &nodes[at] {
            FoldedStreamNode::Curly(ch) => {
                proof {
                    lemma_folded_view_curly(nodes@[at as int], folded_views(ch@));
                }
                match Self::parse_all(ch) {
                    Ok(xs) => {
                        let g = ASTNode::Curly(xs);
                        proof {
                            lemma_ast_view_curly(g, parse_all_from(folded_views(ch@), 0)->Ok_0);
                        }
                        Ok((g, at + 1))
                    },
                    Err(e) => Err(e),
                }
            },
            FoldedStreamNode::Square(ch) => {
                proof {
                    lemma_folded_view_square(nodes@[at as int], folded_views(ch@));
                }
                match Self::parse_all(ch) {
                    Ok(xs) => {
                        let g = ASTNode::Square(xs);
                        proof {
                            lemma_ast_view_square(g, parse_all_from(folded_views(ch@), 0)->Ok_0);
                        }
                        Ok((g, at + 1))
                    },
                    Err(e) => Err(e),
                }
            },
            FoldedStreamNode::Ident(s) => Ok((ASTNode::Ident(s.clone()), at + 1)),
            FoldedStreamNode::NumericLiteral(t) => {
                match NumericLiteral::decode(t.as_str()) {
                    Ok(v) => Ok((ASTNode::NumericLiteral(v), at + 1)),
                    Err(e) => Err(ParseError::Literal { at, err: e }),
                }
            },
            FoldedStreamNode::CharLiteral(c) => Ok((ASTNode::CharLiteral(*c), at + 1)),
            FoldedStreamNode::StringLiteral(s) => Ok((ASTNode::StringLiteral(s.clone()), at + 1)),
            FoldedStreamNode::Comment(_) => Err(ParseError::MalformedSigils { at }),
            FoldedStreamNode::AtSign => Err(ParseError::MalformedSigils { at }),
            FoldedStreamNode::QMark => Err(ParseError::MalformedSigils { at }),
            FoldedStreamNode::Colon => {
                if n - at < 2 {
                    return Err(ParseError::UnexpectedEnd { at: n });
                }
                proof {
                    assert(ns[at as int + 1] == folded_view(nodes@[at as int + 1]));
                }
                match &nodes[at + 1] {
                    FoldedStreamNode::Colon => {
                        if n - at < 3 {
                            return Err(ParseError::UnexpectedEnd { at: n });
                        }
                        proof {
                            assert(ns[at as int + 2] == folded_view(nodes@[at as int + 2]));
                        }
                        let name: String = match &nodes[at + 2] {
                            FoldedStreamNode::Ident(s) => s.clone(),
                            _ => {
                                return Err(ParseError::MissingIdent { at: at + 2 });
                            },
                        };
                        let typed = n - at > 3 && matches!(&nodes[at + 3], FoldedStreamNode::Colon);
                        proof {
                            if at as int + 3 < n as int {
                                assert(ns[at as int + 3] == folded_view(nodes@[at as int + 3]));
                            }
                        }
                        if typed {
                            if n - at < 5 {
                                return Err(ParseError::UnexpectedEnd { at: n });
                            }
                            proof {
                                assert(ns[at as int + 4] == folded_view(nodes@[at as int + 4]));
                            }
                            match &nodes[at + 4] {
                                FoldedStreamNode::Ident(ty) => {
                                    let tc = TypeComponent {
                                        variable: None,
                                        type_name_components: vec![ty.clone()],
                                        explicit: false,
                                        poly: false,
                                    };
                                    proof {
                                        assert(tc@.type_name_components =~= seq![ty@]);
                                    }
                                    Ok((ASTNode::DecTyped(name, tc), at + 5))
                                },
                                _ => Err(ParseError::MissingIdent { at: at + 4 }),
                            }
                        } else {
                            Ok((ASTNode::Dec(name), at + 3))
                        }
                    },
                    FoldedStreamNode::Octothorp => {
                        if n - at < 3 {
                            return Err(ParseError::UnexpectedEnd { at: n });
                        }
                        proof {
                            assert(ns[at as int + 2] == folded_view(nodes@[at as int + 2]));
                        }
                        let name: String = match &nodes[at + 2] {
                            FoldedStreamNode::Ident(s) => s.clone(),
                            _ => {
                                return Err(ParseError::MissingIdent { at: at + 2 });
                            },
                        };
                        proof {
                            if at as int + 3 < n as int {
                                assert(ns[at as int + 3] == folded_view(nodes@[at as int + 3]));
                            }
                        }
                        if n - at > 3 {
                            match &nodes[at + 3] {
                                FoldedStreamNode::Square(ch) => {
                                    proof {
                                        lemma_folded_view_square(
                                            nodes@[at as int + 3],
                                            folded_views(ch@),
                                        );
                                    }
                                    if ch.len() == 0 {
                                        Ok((ASTNode::DecPointerVariable(name), at + 4))
                                    } else {
                                        match Self::parse_all(ch) {
                                            Ok(xs) => {
                                                let g = ASTNode::DecPointerSized(name, xs);
                                                proof {
                                                    lemma_ast_view_sized(
                                                        g,
                                                        parse_all_from(
                                                            folded_views(ch@),
                                                            0,
                                                        )->Ok_0,
                                                    );
                                                }
                                                Ok((g, at + 4))
                                            },
                                            Err(e) => Err(e),
                                        }
                                    }
                                },
                                _ => Ok((ASTNode::DecPointer(name), at + 3)),
                            }
                        } else {
                            Ok((ASTNode::DecPointer(name), at + 3))
                        }
                    },
                    _ => Err(ParseError::MalformedSigils { at }),
                }
            },
            FoldedStreamNode::Dollar => {
                if n - at < 2 {
                    return Err(ParseError::UnexpectedEnd { at: n });
                }
                proof {
                    assert(ns[at as int + 1] == folded_view(nodes@[at as int + 1]));
                }
                match &nodes[at + 1] {
                    FoldedStreamNode::Colon => {
                        if n - at < 3 {
                            return Err(ParseError::UnexpectedEnd { at: n });
                        }
                        proof {
                            assert(ns[at as int + 2] == folded_view(nodes@[at as int + 2]));
                        }
                        let name: String = match &nodes[at + 2] {
                            FoldedStreamNode::Ident(s) => s.clone(),
                            _ => {
                                return Err(ParseError::MissingIdent { at: at + 2 });
                            },
                        };
                        proof {
                            if at as int + 3 < n as int {
                                assert(ns[at as int + 3] == folded_view(nodes@[at as int + 3]));
                            }
                        }
                        if n - at > 3 {
                            match &nodes[at + 3] {
                                FoldedStreamNode::Square(ch) => {
                                    proof {
                                        lemma_folded_view_square(
                                            nodes@[at as int + 3],
                                            folded_views(ch@),
                                        );
                                    }
                                    match Self::parse_all(ch) {
                                        Ok(xs) => {
                                            let g = ASTNode::IndexAssign(name, xs);
                                            proof {
                                                lemma_ast_view_idx(
                                                    g,
                                                    parse_all_from(folded_views(ch@), 0)->Ok_0,
                                                );
                                            }
                                            Ok((g, at + 4))
                                        },
                                        Err(e) => Err(e),
                                    }
                                },
                                _ => Ok((ASTNode::Assign(name), at + 3)),
                            }
                        } else {
                            Ok((ASTNode::Assign(name), at + 3))
                        }
                    },
                    FoldedStreamNode::Ident(s) => Ok((ASTNode::ReadAddress(s.clone()), at + 2)),
                    _ => Err(ParseError::MalformedSigils { at }),
                }
            },
            FoldedStreamNode::Octothorp => {
                if n - at < 2 {
                    return Err(ParseError::UnexpectedEnd { at: n });
                }
                proof {
                    assert(ns[at as int + 1] == folded_view(nodes@[at as int + 1]));
                }
                match &nodes[at + 1] {
                    FoldedStreamNode::Ident(s) => Ok((ASTNode::Address(s.clone()), at + 2)),
                    _ => Err(ParseError::MissingIdent { at: at + 1 }),
                }
            },
        }
    }

    /// Parses every expression in `nodes`, skipping retained comments.
    pub fn parse_all(nodes: &Vec<FoldedStreamNode>) -> (r: Result<Vec<ASTNode>, ParseError>)
        ensures
            r matches Ok(v) ==> parse_all_spec(folded_views(nodes@)) == Ok::<_, ParseError>(
                ast_views(v@),
            ),
            r matches Err(e) ==> parse_all_spec(folded_views(nodes@)) == Err::<Seq<ASTV>, _>(e),
        decreases nodes, 1int, 0int,
    {
        let ghost ns = folded_views(nodes@);
        let n = nodes.len();
        let mut out: Vec<ASTNode> = Vec::new();
        let mut i: usize = 0;
        proof {
            assert(ast_views(out@) =~= Seq::<ASTV>::empty());
        }
        while i < n
            invariant
                i <= n == nodes@.len(),
                ns == folded_views(nodes@),
                parse_all_from(ns, 0) == parse_combine(ast_views(out@), parse_all_from(ns, i as int)),
            decreases n - i,
        {
            proof {
                assert(ns[i as int] == folded_view(nodes@[i as int]));
            }
            let skip = matches!(&nodes[i], FoldedStreamNode::Comment(_));
            if skip {
                i = i + 1;
                continue;
            }
            match Self::new(nodes, i) {
                Ok((node, next)) => {
                    proof {
                        assert(crate::tokenizer::advance(
                            i as int,
                            i as int + step_len(ns, i as int),
                            n as int,
                        ) == next as int);
                        lemma_parse_combine_cons(
                            ast_views(out@),
                            ast_view(node),
                            parse_all_from(ns, next as int),
                        );
                        assert(ast_views(out@.push(node)) =~= ast_views(out@).push(ast_view(node)));
                    }
                    out.push(node);
                    i = next;
                },
                Err(e) => {
                    return Err(e);
                },
            }
        }
        proof {
            assert(parse_all_from(ns, i as int) == Ok::<Seq<ASTV>, ParseError>(Seq::empty()));
            assert(ast_views(out@) + Seq::<ASTV>::empty() =~= ast_views(out@));
        }
        Ok(out)
    }
}

// ---------------------------------------------------------------------------
// Deep copies of syntax nodes
// ---------------------------------------------------------------------------

/// Copies a string vector.
fn clone_strings(v: &Vec<String>) -> (r: Vec<String>)
    ensures
        r@.map_values(|s: String| s@) == v@.map_values(|s: String| s@),
{
    let mut out: Vec<String> = Vec::new();
    let n = v.len();
    let mut i: usize = 0;
    while i < n
        invariant
            i <= n == v@.len(),
            out@.len() == i,
            forall|k: int| 0 <= k < i ==> (#[trigger] out@[k])@ == v@[k]@,
        decreases n - i,
    {
        let c = v[i].clone();
        out.push(c);
        i = i + 1;
    }
    proof {
        assert(out@.map_values(|s: String| s@) =~= v@.map_values(|s: String| s@));
    }
    out
}

impl NumericLiteral {
    /// Copies the literal.
    pub fn duplicate(&self) -> (r: NumericLiteral)
        ensures
            r@ == self@,
    {
        match self {
            NumericLiteral::Float(w, t) => NumericLiteral::Float(*w, t.clone()),
            NumericLiteral::SysUint(n) => NumericLiteral::SysUint(*n),
            NumericLiteral::Uint(w, n) => NumericLiteral::Uint(*w, *n),
            NumericLiteral::SysInt(n) => NumericLiteral::SysInt(*n),
            NumericLiteral::Int(w, n) => NumericLiteral::Int(*w, *n),
            NumericLiteral::Boolean(b) => NumericLiteral::Boolean(*b),
        }
    }
}

/// Copies an expression node, tree and all.
pub fn clone_ast(n: &ASTNode) -> (r: ASTNode)
    ensures
        ast_view(r) == ast_view(*n),
    decreases n, 0int,
{
    match n {
        ASTNode::Curly(v) => {
            let g = ASTNode::Curly(clone_ast_vec(v));
            proof {
                lemma_ast_view_curly(g, ast_views(v@));
                lemma_ast_view_curly(*n, ast_views(v@));
            }
            g
        },
        ASTNode::Square(v) => {
            let g = ASTNode::Square(clone_ast_vec(v));
            proof {
                lemma_ast_view_square(g, ast_views(v@));
                lemma_ast_view_square(*n, ast_views(v@));
            }
            g
        },
        ASTNode::Ident(s) => ASTNode::Ident(s.clone()),
        ASTNode::NumericLiteral(l) => ASTNode::NumericLiteral(l.duplicate()),
        ASTNode::CharLiteral(c) => ASTNode::CharLiteral(*c),
        ASTNode::StringLiteral(s) => ASTNode::StringLiteral(s.clone()),
        ASTNode::Dec(s) => ASTNode::Dec(s.clone()),
        ASTNode::DecTyped(s, t) => {
            let tc = TypeComponent {
                variable: match &t.variable {
                    Some(v) => Some(v.clone()),
                    None => None,
                },
                type_name_components: clone_strings(&t.type_name_components),
                explicit: t.explicit,
                poly: t.poly,
            };
            ASTNode::DecTyped(s.clone(), tc)
        },
        ASTNode::DecPointerSized(s, v) => {
            let g = ASTNode::DecPointerSized(s.clone(), clone_ast_vec(v));
            proof {
                lemma_ast_view_sized(g, ast_views(v@));
                lemma_ast_view_sized(*n, ast_views(v@));
            }
            g
        },
        ASTNode::DecPointerVariable(s) => ASTNode::DecPointerVariable(s.clone()),
        ASTNode::DecPointer(s) => ASTNode::DecPointer(s.clone()),
        ASTNode::Assign(s) => ASTNode::Assign(s.clone()),
        ASTNode::IndexAssign(s, v) => {
            let g = ASTNode::IndexAssign(s.clone(), clone_ast_vec(v));
            proof {
                lemma_ast_view_idx(g, ast_views(v@));
                lemma_ast_view_idx(*n, ast_views(v@));
            }
            g
        },
        ASTNode::Address(s) => ASTNode::Address(s.clone()),
        ASTNode::ReadAddress(s) => ASTNode::ReadAddress(s.clone()),
    }
}

/// Copies a sequence of expression nodes.
pub fn clone_ast_vec(v: &Vec<ASTNode>) -> (r: Vec<ASTNode>)
    ensures
        ast_views(r@) == ast_views(v@),
    decreases v, 1int,
{
    let mut out: Vec<ASTNode> = Vec::new();
    let n = v.len();
    let mut i: usize = 0;
    while i < n
        invariant
            i <= n == v@.len(),
            ast_views(out@) == ast_views(v@).subrange(0, i as int),
        decreases n - i,
    {
        let c = clone_ast(&v[i]);
        proof {
            assert(ast_views(out@.push(c)) =~= ast_views(out@).push(ast_view(c)));
            assert(ast_views(out@).push(ast_view(v@[i as int])) =~= ast_views(v@).subrange(
                0,
                i as int + 1,
            ));
        }
        out.push(c);
        i = i + 1;
    }
    proof {
        assert(ast_views(v@).subrange(0, n as int) =~= ast_views(v@));
    }
    out
}

// ---------------------------------------------------------------------------
// Top-level building
// ---------------------------------------------------------------------------

/// One top-level item: a retained comment, a word declaration, or a
/// typing annotation whose body is kept opaque for the out-of-scope
/// typing stage.
#[derive(Debug, PartialEq)]
pub enum TopLevelNode {
    Comment(String),
    /// `@name value`.
    WordDeclare(String, ASTNode),
    /// `?name [ ... ]`, the bracket content unparsed.
    Typing(String, Vec<FoldedStreamNode>),
}

/// Mathematical image of a `TopLevelNode`.
pub enum TopLevelV {
    Comment(Seq<char>),
    WordDeclare(Seq<char>, ASTV),
    Typing(Seq<char>, Seq<FoldedV>),
}

pub open spec fn top_view(n: TopLevelNode) -> TopLevelV {
    match n {
        TopLevelNode::Comment(s) => TopLevelV::Comment(s@),
        TopLevelNode::WordDeclare(s, v) => TopLevelV::WordDeclare(s@, ast_view(v)),
        TopLevelNode::Typing(s, f) => TopLevelV::Typing(s@, folded_views(f@)),
    }
}

impl View for TopLevelNode {
    type V = TopLevelV;

    open spec fn view(&self) -> TopLevelV {
        top_view(*self)
    }
}

pub open spec fn top_views(ns: Seq<TopLevelNode>) -> Seq<TopLevelV> {
    ns.map_values(|n: TopLevelNode| top_view(n))
}

/// Reads top-level items from `ns[i..]`: a comment, `? ident [group]`,
/// or `@ ident value`; anything else is a fatal parse error.
pub open spec fn build_from(ns: Seq<FoldedV>, i: int) -> Result<Seq<TopLevelV>, ParseError>
    decreases ns.len() - i,
{
    let n = ns.len() as int;
    if i < 0 || i >= n {
        Ok(Seq::empty())
    } else {
        match ns[i] {
            FoldedV::Comment(c) => match build_from(ns, i + 1) {
                Ok(rest) => Ok(seq![TopLevelV::Comment(c)] + rest),
                Err(e) => Err(e),
            },
            FoldedV::QMark => {
                if i + 1 >= n {
                    Err(ParseError::UnexpectedEnd { at: ns.len() as usize })
                } else if !(ns[i + 1] is Ident) {
                    Err(ParseError::MissingIdent { at: (i + 1) as usize })
                } else if i + 2 >= n {
                    Err(ParseError::UnexpectedEnd { at: ns.len() as usize })
                } else if !(ns[i + 2] is Square) {
                    Err(ParseError::MalformedTyping { at: (i + 2) as usize })
                } else {
                    match build_from(ns, i + 3) {
                        Ok(rest) => Ok(
                            seq![TopLevelV::Typing(ns[i + 1]->Ident_0, ns[i + 2]->Square_0)]
                                + rest,
                        ),
                        Err(e) => Err(e),
                    }
                }
            },
            FoldedV::AtSign => {
                if i + 1 >= n {
                    Err(ParseError::UnexpectedEnd { at: ns.len() as usize })
                } else if !(ns[i + 1] is Ident) {
                    Err(ParseError::MissingIdent { at: (i + 1) as usize })
                } else {
                    match parse_one_spec(ns, i + 2) {
                        Err(e) => Err(e),
                        Ok(v) => match build_from(
                            ns,
                            crate::tokenizer::advance(i + 2, i + 2 + step_len(ns, i + 2), n),
                        ) {
                            Ok(rest) => Ok(
                                seq![TopLevelV::WordDeclare(ns[i + 1]->Ident_0, v)] + rest,
                            ),
                            Err(e) => Err(e),
                        },
                    }
                }
            },
            _ => Err(ParseError::UnexpectedTopLevel { at: i as usize }),
        }
    }
}

/// What building a whole folded sequence yields.
pub open spec fn build_spec(ns: Seq<FoldedV>) -> Result<Seq<TopLevelV>, ParseError> {
    build_from(ns, 0)
}

/// What the combined fold-and-build pass yields on a token sequence.
pub open spec fn build_tree_spec(ts: Seq<TokenV>) -> Result<
    Seq<TopLevelV>,
    crate::errors::FrontendError,
> {
    match fold_spec(ts) {
        Err(e) => Err(crate::errors::FrontendError::Structure(e)),
        Ok(ns) => match build_spec(ns) {
            Ok(tl) => Ok(tl),
            Err(e) => Err(crate::errors::FrontendError::Parse(e)),
        },
    }
}

/// Appends a build result to already-built items.
pub open spec fn build_combine(acc: Seq<TopLevelV>, r: Result<Seq<TopLevelV>, ParseError>) -> Result<
    Seq<TopLevelV>,
    ParseError,
> {
    match r {
        Ok(xs) => Ok(acc + xs),
        Err(e) => Err(e),
    }
}

proof fn lemma_build_combine_cons(
    acc: Seq<TopLevelV>,
    t: TopLevelV,
    r: Result<Seq<TopLevelV>, ParseError>,
)
    ensures
        build_combine(
            acc,
            match r {
                Ok(rest) => Ok::<Seq<TopLevelV>, ParseError>(seq![t] + rest),
                Err(e) => Err(e),
            },
        ) == build_combine(acc.push(t), r),
{
    match r {
        Ok(ts) => {
            assert(acc + (seq![t] + ts) =~= acc.push(t) + ts);
        },
        Err(_) => {},
    }
}

/// Folds a token stream and reads its top-level items, or reports the
/// first structural or parse error.
pub fn build_tree(stream: Vec<Token>) -> (r: Result<Vec<TopLevelNode>, crate::errors::FrontendError>)
    ensures
        r matches Ok(v) ==> build_tree_spec(toks_view(stream@)) == Ok::<
            _,
            crate::errors::FrontendError,
        >(top_views(v@)),
        r matches Err(e) ==> build_tree_spec(toks_view(stream@)) == Err::<Seq<TopLevelV>, _>(e),
{
    let ghost ts = toks_view(stream@);
    let nodes = match fold_stream(stream) {
        Ok(f) => f,
        Err(e) => {
            return Err(crate::errors::FrontendError::Structure(e));
        },
    };
    let ghost ns = folded_views(nodes@);
    let n = nodes.len();
    let mut out: Vec<TopLevelNode> = Vec::new();
    let mut i: usize = 0;
    proof {
        assert(top_views(out@) =~= Seq::<TopLevelV>::empty());
    }
    while i < n
        invariant
            i <= n == nodes@.len(),
            ns == folded_views(nodes@),
            ts == toks_view(stream@),
            build_tree_spec(ts) == (match build_combine(top_views(out@), build_from(ns, i as int)) {
                Ok(tl) => Ok::<Seq<TopLevelV>, crate::errors::FrontendError>(tl),
                Err(e) => Err(crate::errors::FrontendError::Parse(e)),
            }),
        decreases n - i,
    {
        let ghost acc = top_views(out@);
        proof {
            assert(ns[i as int] == folded_view(nodes@[i as int]));
        }
        match &nodes[i] {
            FoldedStreamNode::Comment(c) => {
                let item = TopLevelNode::Comment(c.clone());
                proof {
                    lemma_build_combine_cons(acc, top_view(item), build_from(ns, i as int + 1));
                    assert(top_views(out@.push(item)) =~= top_views(out@).push(top_view(item)));
                }
                out.push(item);
                i = i + 1;
            },
            FoldedStreamNode::QMark => {
                if n - i < 2 {
                    proof {
                        assert(ns.len() == nodes@.len());
                        let e = ParseError::UnexpectedEnd { at: n };
                        assert(build_from(ns, i as int) == Err::<Seq<TopLevelV>, ParseError>(e));
                        assert(build_combine(top_views(out@), build_from(ns, i as int))
                            == Err::<Seq<TopLevelV>, ParseError>(e));
                    }
                    return Err(crate::errors::FrontendError::Parse(ParseError::UnexpectedEnd {
                        at: n,
                    }));
                }
                proof {
                    assert(ns[i as int + 1] == folded_view(nodes@[i as int + 1]));
                }
                let name: String = match &nodes[i + 1] {
                    FoldedStreamNode::Ident(s) => s.clone(),
                    _ => {
                        return Err(crate::errors::FrontendError::Parse(ParseError::MissingIdent {
                            at: i + 1,
                        }));
                    },
                };
                if n - i < 3 {
                    return Err(crate::errors::FrontendError::Parse(ParseError::UnexpectedEnd {
                        at: n,
                    }));
                }
                proof {
                    assert(ns[i as int + 2] == folded_view(nodes@[i as int + 2]));
                }
                match &nodes[i + 2] {
                    FoldedStreamNode::Square(content) => {
                        proof {
                            lemma_folded_view_square(nodes@[i as int + 2], folded_views(content@));
                        }
                        let copy = clone_folded_vec(content);
                        let item = TopLevelNode::Typing(name, copy);
                        proof {
                            lemma_build_combine_cons(
                                acc,
                                top_view(item),
                                build_from(ns, i as int + 3),
                            );
                            assert(top_views(out@.push(item)) =~= top_views(out@).push(
                                top_view(item),
                            ));
                        }
                        out.push(item);
                        i = i + 3;
                    },
                    _ => {
                        return Err(crate::errors::FrontendError::Parse(
                            ParseError::MalformedTyping { at: i + 2 },
                        ));
                    },
                }
            },
            FoldedStreamNode::AtSign => {
                if n - i < 2 {
                    proof {
                        assert(ns.len() == nodes@.len());
                        let e = ParseError::UnexpectedEnd { at: n };
                        assert(build_from(ns, i as int) == Err::<Seq<TopLevelV>, ParseError>(e));
                        assert(build_combine(top_views(out@), build_from(ns, i as int))
                            == Err::<Seq<TopLevelV>, ParseError>(e));
                    }
                    return Err(crate::errors::FrontendError::Parse(ParseError::UnexpectedEnd {
                        at: n,
                    }));
                }
                proof {
                    assert(ns[i as int + 1] == folded_view(nodes@[i as int + 1]));
                }
                let name: String = match &nodes[i + 1] {
                    FoldedStreamNode::Ident(s) => s.clone(),
                    _ => {
                        return Err(crate::errors::FrontendError::Parse(ParseError::MissingIdent {
                            at: i + 1,
                        }));
                    },
                };
                match ASTNode::new(&nodes, i + 2) {
                    Ok((value, next)) => {
                        let item = TopLevelNode::WordDeclare(name, value);
                        proof {
                            assert(crate::tokenizer::advance(
                                i as int + 2,
                                i as int + 2 + step_len(ns, i as int + 2),
                                n as int,
                            ) == next as int);
                            lemma_build_combine_cons(
                                acc,
                                top_view(item),
                                build_from(ns, next as int),
                            );
                            assert(top_views(out@.push(item)) =~= top_views(out@).push(
                                top_view(item),
                            ));
                        }
                        out.push(item);
                        i = next;
                    },
                    Err(e) => {
                        return Err(crate::errors::FrontendError::Parse(e));
                    },
                }
            },
            _ => {
                return Err(crate::errors::FrontendError::Parse(ParseError::UnexpectedTopLevel {
                    at: i,
                }));
            },
        }
    }
    proof {
        assert(build_from(ns, i as int) == Ok::<Seq<TopLevelV>, ParseError>(Seq::empty()));
        assert(top_views(out@) + Seq::<TopLevelV>::empty() =~= top_views(out@));
    }
    Ok(out)
}

// ---------------------------------------------------------------------------
// The sigil dispatch law
// ---------------------------------------------------------------------------

/// The sigil dispatch law: each of the nine declaration forms, given as
/// the exact folded-node sequence of its row in the dispatch table,
/// parses to exactly the named node and no other; a bare identifier
/// parses to an identifier reference.
pub proof fn lemma_sigil_dispatch(name: Seq<char>, ty: Seq<char>, grp: Seq<FoldedV>, exprs: Seq<ASTV>)
    requires
        parse_all_from(grp, 0) == Ok::<Seq<ASTV>, ParseError>(exprs),
        grp.len() > 0,
    ensures
        parse_one_spec(seq![FoldedV::Ident(name)], 0) == Ok::<ASTV, ParseError>(ASTV::Ident(name)),
        parse_one_spec(seq![FoldedV::Colon, FoldedV::Colon, FoldedV::Ident(name)], 0) == Ok::<
            ASTV,
            ParseError,
        >(ASTV::Dec(name)),
        parse_one_spec(
            seq![
                FoldedV::Colon,
                FoldedV::Colon,
                FoldedV::Ident(name),
                FoldedV::Colon,
                FoldedV::Ident(ty),
            ],
            0,
        ) == Ok::<ASTV, ParseError>(ASTV::DecTyped(name, type_component_of(ty))),
        parse_one_spec(
            seq![FoldedV::Colon, FoldedV::Octothorp, FoldedV::Ident(name), FoldedV::Square(grp)],
            0,
        ) == Ok::<ASTV, ParseError>(ASTV::DecPointerSized(name, exprs)),
        parse_one_spec(
            seq![
                FoldedV::Colon,
                FoldedV::Octothorp,
                FoldedV::Ident(name),
                FoldedV::Square(Seq::empty()),
            ],
            0,
        ) == Ok::<ASTV, ParseError>(ASTV::DecPointerVariable(name)),
        parse_one_spec(seq![FoldedV::Colon, FoldedV::Octothorp, FoldedV::Ident(name)], 0) == Ok::<
            ASTV,
            ParseError,
        >(ASTV::DecPointer(name)),
        parse_one_spec(seq![FoldedV::Dollar, FoldedV::Colon, FoldedV::Ident(name)], 0) == Ok::<
            ASTV,
            ParseError,
        >(ASTV::Assign(name)),
        parse_one_spec(
            seq![FoldedV::Dollar, FoldedV::Colon, FoldedV::Ident(name), FoldedV::Square(grp)],
            0,
        ) == Ok::<ASTV, ParseError>(ASTV::IndexAssign(name, exprs)),
        parse_one_spec(seq![FoldedV::Octothorp, FoldedV::Ident(name)], 0) == Ok::<
            ASTV,
            ParseError,
        >(ASTV::Address(name)),
        parse_one_spec(seq![FoldedV::Dollar, FoldedV::Ident(name)], 0) == Ok::<ASTV, ParseError>(
            ASTV::ReadAddress(name),
        ),
{
}

} // verus!
