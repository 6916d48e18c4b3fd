//! Mutation of the buffer: reading the selected text, and replacing the
//! selection while honouring the UTF-16 length limit.

use vstd::prelude::*;
use vstd::slice::slice_subrange;
use vstd::string::StrSliceExecFns;
use vstd::utf8::*;

use crate::clipboard::ClipboardProvider;
use crate::input::{append_bytes, copy_bytes, point_off, point_ok, TextInput};
use crate::model::{
    join_nl, lemma_line_decomp, lemma_prefix_off_nonneg, lemma_split_nl_basic,
    lemma_split_nl_valid, no_nl, prefix_off, split_nl, spliced, views,
};
use crate::segment::string_from_utf8;
use crate::types::{SelectionDirection, TextPoint};
use crate::unicode::{first_units_len, len_of_first_n_code_units, utf16_count, utf16_len};

verus! {

broadcast use vstd::seq::group_seq_axioms, vstd::seq_lib::group_seq_lib_default;

/// Split a text into lines at newline bytes only, as splicing inserted text
/// does.
pub(crate) fn split_nl_bytes(b: &[u8]) -> (r: Vec<Vec<u8>>)
    ensures
        views(r@) == split_nl(b@),
{
    let mut out: Vec<Vec<u8>> = Vec::new();
    let mut cur: Vec<u8> = Vec::new();
    let mut i: usize = 0;
    proof {
        assert(b@.skip(0) =~= b@);
        assert(views(out@) =~= Seq::<Seq<u8>>::empty());
        lemma_split_nl_basic(b@);
        assert(split_nl(b@) =~= views(out@) + seq![cur@ + split_nl(b@.skip(0))[0]] + split_nl(
            b@.skip(0),
        ).drop_first());
    }
    while i < b.len()
        invariant
            i <= b@.len(),
            split_nl(b@) == views(out@) + seq![cur@ + split_nl(b@.skip(i as int))[0]] + split_nl(
                b@.skip(i as int),
            ).drop_first(),
        decreases b@.len() - i,
    {
        let ghost suf = b@.skip(i as int);
        let ghost out0 = out@;
        let ghost cur0 = cur@;
        proof {
            lemma_split_nl_basic(suf);
            assert(suf[0] == b@[i as int]);
        }
        let byte = b[i];
        if byte == 10 {
            out.push(cur);
            cur = Vec::new();
            i = i + 1;
            proof {
                let r = split_nl(b@.skip(i as int));
                assert(suf.drop_first() =~= b@.skip(i as int));
                assert(split_nl(suf) == seq![Seq::<u8>::empty()] + r);
                lemma_split_nl_basic(b@.skip(i as int));
                assert(split_nl(suf)[0] =~= Seq::<u8>::empty());
                assert(split_nl(suf).drop_first() =~= r);
                assert(cur0 + split_nl(suf)[0] =~= cur0);
                assert(r =~= seq![r[0]] + r.drop_first());
                assert(views(out@) =~= views(out0).push(cur0));
                assert(cur@ + r[0] =~= r[0]);
                assert(views(out0) + seq![cur0] + (seq![r[0]] + r.drop_first()) =~= views(out@)
                    + seq![cur@ + r[0]] + r.drop_first());
                assert(split_nl(b@) == views(out@) + seq![cur@ + r[0]] + r.drop_first());
            }
        } else {
            cur.push(byte);
            i = i + 1;
            proof {
                let r = split_nl(b@.skip(i as int));
                assert(suf.drop_first() =~= b@.skip(i as int));
                assert(split_nl(suf) == seq![seq![suf[0]] + r[0]] + r.drop_first());
                assert(cur@ =~= cur0 + seq![byte]);
                assert(cur0 + (seq![suf[0]] + r[0]) =~= cur@ + r[0]);
                assert(split_nl(b@) == views(out@) + seq![cur@ + r[0]] + r.drop_first());
            }
        }
    }
    let ghost out0 = out@;
    let ghost cur0 = cur@;
    out.push(cur);
    proof {
        assert(b@.skip(i as int) =~= Seq::<u8>::empty());
        assert(split_nl(Seq::<u8>::empty()) == seq![Seq::<u8>::empty()]);
        assert(cur0 + split_nl(Seq::<u8>::empty())[0] =~= cur0);
        assert(split_nl(Seq::<u8>::empty()).drop_first() =~= Seq::<Seq<u8>>::empty());
        assert(views(out@) =~= views(out0).push(cur0));
        assert(views(out0) + seq![cur0] + Seq::<Seq<u8>>::empty() =~= views(out0).push(cur0));
        assert(split_nl(b@) == views(out@));
    }
    out
}


/// Assemble the lines that replace the span from `start` to `end` by the
/// given insert lines, and the caret column at the end of the inserted text.
#[verifier::loop_isolation(false)]
fn build_spliced(
    lines: &Vec<Vec<u8>>,
    start: TextPoint,
    end: TextPoint,
    insert_lines: &Vec<Vec<u8>>,
) -> (r: (Vec<Vec<u8>>, usize))
    requires
        (start.line as int) < lines@.len(),
        (end.line as int) < lines@.len(),
        start.line <= end.line,
        start.line == end.line ==> start.index <= end.index,
        start.index as int <= views(lines@)[start.line as int].len(),
        end.index as int <= views(lines@)[end.line as int].len(),
        insert_lines@.len() >= 1,
    ensures
        views(r.0@) == spliced(
            views(lines@),
            start.line as int,
            start.index as int,
            end.line as int,
            end.index as int,
            views(insert_lines@),
        ),
        ({
            let ins_lines = views(insert_lines@);
            let k = ins_lines.len() - 1;
            r.1 as int == (if k == 0 {
                start.index + ins_lines[0].len()
            } else {
                ins_lines[k].len() as int
            })
        }),
{
    let ghost lv = views(lines@);
    let ghost ins_lines = views(insert_lines@);
    let ghost sl = start.line as int;
    let ghost si = start.index as int;
    let ghost el = end.line as int;
    let ghost ei = end.index as int;
    let k = insert_lines.len() - 1;
        let ghost prefix_g = lv[sl].subrange(0, si);
        let ghost suffix_g = lv[el].subrange(ei, lv[el].len() as int);
        let ghost mid_g = if k == 0 {
            seq![prefix_g + ins_lines[0] + suffix_g]
        } else {
            seq![prefix_g + ins_lines[0]] + ins_lines.subrange(1, k as int) + seq![
                ins_lines[k as int] + suffix_g,
            ]
        };

        let mut new_lines: Vec<Vec<u8>> = Vec::new();
        let mut l: usize = 0;
        proof {
            assert(views(new_lines@) =~= lv.subrange(0, 0));
        }
        while l < start.line
            invariant
                l <= sl < lv.len(),
                lv == views(lines@),
                views(new_lines@) == lv.subrange(0, l as int),
            decreases sl - l,
        {
            let ghost priorl = new_lines@;
            let cp = copy_bytes(lines[l].as_slice());
            new_lines.push(cp);
            proof {
                assert(new_lines@ == priorl.push(cp));
                assert(cp@ == lv[l as int]);
                assert(views(new_lines@) =~= views(priorl).push(lv[l as int]));
                assert(views(new_lines@) =~= lv.subrange(0, l + 1));
            }
            l = l + 1;
        }

        let mut first_mid = copy_bytes(slice_subrange(lines[start.line].as_slice(), 0, start.index));
        append_bytes(&mut first_mid, insert_lines[0].as_slice());
        let new_index: usize;
        if k == 0 {
            new_index = first_mid.len();
            let suffix_len = lines[end.line].len();
            let suf = slice_subrange(lines[end.line].as_slice(), end.index, suffix_len);
            append_bytes(&mut first_mid, suf);
            proof {
                assert(first_mid@ =~= prefix_g + ins_lines[0] + suffix_g);
            }
            let ghost prior0 = new_lines@;
            let ghost first_mid_v = first_mid@;
            new_lines.push(first_mid);
            proof {
                assert(new_lines@ == prior0.push(new_lines@.last()));
                assert(new_lines@.last()@ == first_mid_v);
                assert(views(new_lines@) =~= views(prior0).push(first_mid_v));
                assert(first_mid_v == prefix_g + ins_lines[0] + suffix_g);
                assert(views(new_lines@) =~= lv.subrange(0, sl) + mid_g);
            }
        } else {
            proof {
                assert(first_mid@ =~= prefix_g + ins_lines[0]);
            }
            let ghost prior1 = new_lines@;
            let ghost first_mid_v = first_mid@;
            new_lines.push(first_mid);
            proof {
                assert(new_lines@ == prior1.push(new_lines@.last()));
                assert(new_lines@.last()@ == first_mid_v);
                assert(views(new_lines@) =~= views(prior1).push(first_mid_v));
                assert(first_mid_v == prefix_g + ins_lines[0]);
                assert(views(new_lines@) =~= lv.subrange(0, sl) + seq![prefix_g + ins_lines[0]]);
            }
            let mut j: usize = 1;
            while j < k
                invariant
                    1 <= j <= k,
                    k as int == ins_lines.len() - 1,
                    ins_lines == views(insert_lines@),
                    views(new_lines@) == lv.subrange(0, sl) + seq![prefix_g + ins_lines[0]]
                        + ins_lines.subrange(1, j as int),
                decreases k - j,
            {
                let ghost prior = new_lines@;
                let cp = copy_bytes(insert_lines[j].as_slice());
                new_lines.push(cp);
                proof {
                    assert(new_lines@ == prior.push(cp));
                    assert(cp@ == ins_lines[j as int]);
                    assert(views(new_lines@) =~= views(prior).push(ins_lines[j as int]));
                    assert(views(new_lines@) =~= lv.subrange(0, sl) + seq![prefix_g + ins_lines[0]]
                        + ins_lines.subrange(1, j + 1));
                }
                j = j + 1;
            }
            let mut last_mid = copy_bytes(insert_lines[k].as_slice());
            new_index = last_mid.len();
            let suffix_len = lines[end.line].len();
            append_bytes(
                &mut last_mid,
                slice_subrange(lines[end.line].as_slice(), end.index, suffix_len),
            );
            proof {
                assert(last_mid@ =~= ins_lines[k as int] + suffix_g);
            }
            let ghost prior2 = new_lines@;
            let ghost last_mid_v = last_mid@;
            new_lines.push(last_mid);
            proof {
                assert(new_lines@ == prior2.push(new_lines@.last()));
                assert(new_lines@.last()@ == last_mid_v);
                assert(views(new_lines@) =~= views(prior2).push(last_mid_v));
                assert(last_mid_v == ins_lines[k as int] + suffix_g);
                assert(views(new_lines@) =~= lv.subrange(0, sl) + mid_g);
            }
        }

        let n = lines.len();
        let mut t: usize = end.line + 1;
        while t < n
            invariant
                el + 1 <= t <= n,
                n == lv.len(),
                lv == views(lines@),
                views(new_lines@) == lv.subrange(0, sl) + mid_g + lv.subrange(el + 1, t as int),
            decreases n - t,
        {
            let ghost priort = new_lines@;
            let cp = copy_bytes(lines[t].as_slice());
            new_lines.push(cp);
            proof {
                assert(new_lines@ == priort.push(cp));
                assert(cp@ == lv[t as int]);
                assert(views(new_lines@) =~= views(priort).push(lv[t as int]));
                assert(views(new_lines@) =~= lv.subrange(0, sl) + mid_g + lv.subrange(
                    el + 1,
                    t + 1,
                ));
            }
            t = t + 1;
        }
        proof {
            assert(views(new_lines@) == spliced(lv, sl, si, el, ei, ins_lines));
            crate::model::lemma_splice(lv, sl, si, el, ei, ins_lines);
            assert(new_lines@.len() == sl + ins_lines.len() + (lv.len() - el - 1));
        }


    (new_lines, new_index)
}


/// Every line of a splice of well-formed lines by well-formed insert lines
/// is valid UTF-8 (and free of stray newlines in a multiline control), and
/// the caret landing column at the end of the insert lies on a character
/// boundary of its line.
proof fn lemma_spliced_lines_ok(
    lv: Seq<Seq<u8>>,
    sl: int,
    si: int,
    el: int,
    ei: int,
    ins_lines: Seq<Seq<u8>>,
    multiline: bool,
)
    requires
        0 <= sl <= el < lv.len(),
        0 <= si <= lv[sl].len(),
        0 <= ei <= lv[el].len(),
        is_char_boundary(lv[sl], si),
        is_char_boundary(lv[el], ei),
        forall|i: int| 0 <= i < lv.len() ==> valid_utf8(#[trigger] lv[i]),
        multiline ==> forall|i: int| 0 <= i < lv.len() ==> no_nl(#[trigger] lv[i]),
        ins_lines.len() >= 1,
        forall|i: int| 0 <= i < ins_lines.len() ==> valid_utf8(#[trigger] ins_lines[i]),
        multiline ==> forall|i: int| 0 <= i < ins_lines.len() ==> no_nl(#[trigger] ins_lines[i]),
    ensures
        ({
            let post_lv = spliced(lv, sl, si, el, ei, ins_lines);
            let k = ins_lines.len() - 1;
            let landing: int = if k == 0 {
                si + ins_lines[0].len()
            } else {
                ins_lines[k].len() as int
            };
            &&& forall|i: int| 0 <= i < post_lv.len() ==> valid_utf8(#[trigger] post_lv[i])
            &&& (multiline ==> forall|i: int|
                0 <= i < post_lv.len() ==> no_nl(#[trigger] post_lv[i]))
            &&& 0 <= landing <= post_lv[sl + k].len()
            &&& is_char_boundary(post_lv[sl + k], landing)
        }),
{
    let post_lv = spliced(lv, sl, si, el, ei, ins_lines);
    let k = ins_lines.len() - 1;
    let prefix_g = lv[sl].subrange(0, si);
    let suffix_g = lv[el].subrange(ei, lv[el].len() as int);
    let mid_g = if k == 0 {
        seq![prefix_g + ins_lines[0] + suffix_g]
    } else {
        seq![prefix_g + ins_lines[0]] + ins_lines.subrange(1, k) + seq![ins_lines[k] + suffix_g]
    };
    valid_utf8_split(lv[sl], si);
    valid_utf8_split(lv[el], ei);
    crate::unicode::lemma_bytes_concat(prefix_g, ins_lines[0]);
    if k == 0 {
        crate::unicode::lemma_bytes_concat(prefix_g + ins_lines[0], suffix_g);
    } else {
        crate::unicode::lemma_bytes_concat(ins_lines[k], suffix_g);
    }
    assert forall|idx: int| 0 <= idx < post_lv.len() implies valid_utf8(
        #[trigger] post_lv[idx],
    ) by {
        if idx < sl {
            assert(post_lv[idx] == lv[idx]);
        } else if idx < sl + mid_g.len() {
            assert(post_lv[idx] == mid_g[idx - sl]);
        } else {
            assert(post_lv[idx] == lv[el + 1 + (idx - sl - mid_g.len())]);
        }
    }
    if multiline {
        assert forall|idx: int| 0 <= idx < post_lv.len() implies no_nl(#[trigger] post_lv[idx]) by {
            if idx < sl {
                assert(post_lv[idx] == lv[idx]);
            } else if idx < sl + mid_g.len() {
                assert(post_lv[idx] == mid_g[idx - sl]);
            } else {
                assert(post_lv[idx] == lv[el + 1 + (idx - sl - mid_g.len())]);
            }
        }
    }
    let land = post_lv[sl + k];
    assert(land == mid_g[k]);
    let landing: int = if k == 0 {
        si + ins_lines[0].len()
    } else {
        ins_lines[k].len() as int
    };
    assert(is_char_boundary(land, landing)) by {
        if suffix_g.len() == 0 {
            assert(landing == land.len());
            is_char_boundary_start_end_of_seq(land);
        } else {
            crate::unicode::lemma_valid_first_byte(suffix_g);
            assert(land[landing] == suffix_g[0]);
            crate::unicode::lemma_boundary_char(land, landing);
        }
    }
}

impl<T: ClipboardProvider> TextInput<T> {
    /// What replacing the selection by the (already truncated) bytes `ins`
    /// leaves behind: nothing, when the result would not fit in memory;
    /// otherwise the spliced lines, the caret at the end of the insert, and
    /// no selection.
    pub open spec fn replace_applied(self, ins: Seq<u8>, post: TextInput<T>) -> bool {
        let lv = self.lines_view();
        let c = self.spec_content();
        let start = self.spec_selection_start();
        let end = self.spec_selection_end();
        let s_off = self.spec_start_off();
        let e_off = self.spec_end_off();
        if c.len() - (e_off - s_off) + ins.len() >= isize::MAX {
            post == self
        } else {
            let ins_lines = if self.multiline {
                split_nl(ins)
            } else {
                seq![ins]
            };
            let k = ins_lines.len() - 1;
            &&& post.lines_view() == spliced(
                lv,
                start.line as int,
                start.index as int,
                end.line as int,
                end.index as int,
                ins_lines,
            )
            &&& post.spec_content() == c.subrange(0, s_off) + ins + c.subrange(
                e_off,
                c.len() as int,
            )
            &&& post.selection_origin is None
            &&& post.selection_direction == SelectionDirection::NoDirection
            &&& post.edit_point.line as int == start.line + k
            &&& post.edit_point.index as int == (if k == 0 {
                start.index + ins_lines[0].len()
            } else {
                ins_lines[k].len() as int
            })
            &&& post.multiline == self.multiline
            &&& post.max_length == self.max_length
            &&& post.min_length == self.min_length
            &&& post.clipboard_provider == self.clipboard_provider
        }
    }

    /// What replacing the selection by the given text leaves behind: nothing
    /// without an active selection, nothing when a length limit leaves no
    /// room even after deleting the selection, and otherwise the splice of
    /// the insert text truncated to the room the limit leaves.
    pub open spec fn replace_post(self, ins_chars: Seq<char>, post: TextInput<T>) -> bool {
        let ins_all = encode_utf8(ins_chars);
        let sel_u = utf16_len(self.spec_selection_text());
        let total_u = utf16_len(self.spec_content());
        if self.selection_origin is None {
            post == self
        } else {
            match self.max_length {
                Option::Some(m) => {
                    if total_u - sel_u >= m {
                        post == self
                    } else {
                        self.replace_applied(
                            ins_all.take(first_units_len(ins_all, m - (total_u - sel_u))),
                            post,
                        )
                    }
                },
                Option::None => {
                    self.replace_applied(
                        ins_all.take(first_units_len(ins_all, usize::MAX as int)),
                        post,
                    )
                },
            }
        }
    }

    /// Replace the selected text by the given text, truncated so that the
    /// content never exceeds the UTF-16 length limit. Does nothing without
    /// an active selection, or when the limit leaves no room even after the
    /// selected text is deleted.
    #[verifier::loop_isolation(false)]
    #[verifier::rlimit(100)]
    #[verifier::spinoff_prover]
    pub fn replace_selection(&mut self, insert: &str)
        requires
            old(self).wf(),
        ensures
            final(self).wf(),
            old(self).replace_post(insert@, *final(self)),
    {
        let ghost pre = *self;
        if !self.has_selection() {
            return ;
        }
        proof {
            self.lemma_selection_invariants();
        }
        let ghost lv = self.lines_view();
        let ghost c = self.spec_content();
        let (start, end) = self.sorted_selection_bounds();
        let ghost sl = start.line as int;
        let ghost si = start.index as int;
        let ghost el = end.line as int;
        let ghost ei = end.index as int;

        let allowed: usize = if let Some(max_length) = self.max_length {
            let total_u = self.utf16_len();
            let sel_u = self.selection_utf16_len();
            let len_after = total_u - sel_u;
            if len_after >= max_length {
                return ;
            }
            max_length - len_after
        } else {
            usize::MAX
        };

        let ins_full: Vec<u8> = insert.as_bytes_vec();
        proof {
            encode_utf8_valid_utf8(insert@);
        }
        let last_char_index = len_of_first_n_code_units(ins_full.as_slice(), allowed);
        let ins_vec = copy_bytes(slice_subrange(ins_full.as_slice(), 0, last_char_index));
        let ghost ins = ins_vec@;
        proof {
            assert(ins =~= encode_utf8(insert@).take(
                first_units_len(encode_utf8(insert@), allowed as int),
            ));
            valid_utf8_split(ins_full@, last_char_index as int);
            assert(ins =~= ins_full@.subrange(0, last_char_index as int));
            assert(valid_utf8(ins));
        }

        // the spliced content must stay within what a buffer can address
        let total = self.len();
        let s_off_e = self.selection_start_offset();
        let e_off_e = self.selection_end_offset();
        let cap: usize = isize::MAX as usize;
        if ins_vec.len() >= cap - (total - (e_off_e - s_off_e)) {
            return ;
        }

        self.clear_selection();

        let k: usize;
        let insert_lines: Vec<Vec<u8>>;
        if self.multiline {
            insert_lines = split_nl_bytes(ins_vec.as_slice());
        } else {
            let mut one: Vec<Vec<u8>> = Vec::new();
            one.push(ins_vec);
            insert_lines = one;
        }
        let ghost ins_lines = views(insert_lines@);
        proof {
            if pre.multiline {
                assert(ins_lines == split_nl(ins));
                lemma_split_nl_basic(ins);
                lemma_split_nl_valid(ins);
            } else {
                assert(ins_lines =~= seq![ins]);
            }
            assert(ins_lines.len() >= 1);
            assert(join_nl(ins_lines) == ins) by {
                if pre.multiline {
                    lemma_split_nl_basic(ins);
                } else {
                    assert(join_nl(seq![ins]) == ins);
                }
            }
        }
        k = insert_lines.len() - 1;

        let (new_lines, new_index) = build_spliced(&self.lines, start, end, &insert_lines);
        proof {
            crate::model::lemma_splice(lv, sl, si, el, ei, ins_lines);
            assert(new_lines@.len() == sl + ins_lines.len() + (lv.len() - el - 1));
        }
        let nl_count = new_lines.len();
        proof {
            assert(sl + k + 1 <= nl_count);
        }
        let new_line_idx = start.line + k;
        self.lines = new_lines;
        self.edit_point = TextPoint { line: new_line_idx, index: new_index };


        proof {
            let post_lv = self.lines_view();
            let before = c.subrange(0, point_off(lv, start));
            let after = c.subrange(point_off(lv, end), c.len() as int);
            assert(self.spec_content() == before + ins + after);
            assert(self.spec_content().len() < isize::MAX);

            // every line of the splice is valid UTF-8, holds no newline
            // byte in a multiline control, and the caret lands on a
            // character boundary at the end of the inserted text
            pre.lemma_selection_invariants();
            if pre.multiline {
                lemma_split_nl_basic(ins);
            } else {
                assert(lv.len() == 1);
                assert(sl == 0 && el == 0);
            }
            lemma_spliced_lines_ok(lv, sl, si, el, ei, ins_lines, pre.multiline);
            assert(point_ok(post_lv, self.edit_point));
            assert(self.wf());
            assert(pre.replace_applied(ins, *self));
        }
    }

    /// The state from which an insertion replaces: the same state, with a
    /// zero-width selection established at the caret when none is active.
    pub open spec fn with_insertion_point(self) -> TextInput<T> {
        TextInput { selection_origin: Some(self.spec_selection_origin_or_edit_point()), ..self }
    }

    /// Insert a string at the current editing point.
    pub fn insert_string(&mut self, s: &str)
        requires
            old(self).wf(),
        ensures
            final(self).wf(),
            old(self).with_insertion_point().replace_post(s@, *final(self)),
    {
        if self.selection_origin.is_none() {
            self.selection_origin = Some(self.edit_point);
        }
        proof {
            assert(self.wf());
        }
        self.replace_selection(s);
    }

    /// Insert a character at the current editing point.
    pub fn insert_char(&mut self, ch: char)
        requires
            old(self).wf(),
        ensures
            final(self).wf(),
            old(self).with_insertion_point().replace_post(seq![ch], *final(self)),
    {
        let b = crate::unicode::encode_char(ch);
        let s = string_from_utf8(b);
        self.insert_string(s.as_str());
    }

    /// The selected text as one byte string, line breaks included.
    pub(crate) fn selection_bytes(&self) -> (r: Vec<u8>)
        requires
            self.wf(),
        ensures
            r@ == self.spec_selection_text(),
            valid_utf8(r@),
    {
        let ghost lv = self.lines_view();
        let ghost c = self.spec_content();
        proof {
            self.lemma_selection_invariants();
        }
        let (start, end) = self.sorted_selection_bounds();
        let ghost s_off = point_off(lv, start);
        let ghost e_off = point_off(lv, end);
        let mut out: Vec<u8> = Vec::new();
        if start.line == end.line {
            let seg = slice_subrange(self.lines[start.line].as_slice(), start.index, end.index);
            append_bytes(&mut out, seg);
            proof {
                crate::model::lemma_content_line_seg(
                    lv,
                    start.line as int,
                    start.index as int,
                    end.index as int,
                );
                assert(Seq::<u8>::empty() + lv[start.line as int].subrange(
                    start.index as int,
                    end.index as int,
                ) =~= self.spec_selection_text());
            }
        } else {
            let first_len = self.lines[start.line].len();
            let seg = slice_subrange(self.lines[start.line].as_slice(), start.index, first_len);
            append_bytes(&mut out, seg);
            proof {
                lemma_line_decomp(lv, start.line as int);
                crate::model::lemma_content_line_seg(
                    lv,
                    start.line as int,
                    start.index as int,
                    lv[start.line as int].len() as int,
                );
                assert(Seq::<u8>::empty() + lv[start.line as int].subrange(
                    start.index as int,
                    lv[start.line as int].len() as int,
                ) =~= c.subrange(s_off, prefix_off(lv, start.line as int) + lv[start.line as int].len()));
            }
            let mut l: usize = start.line + 1;
            while l <= end.line
                invariant
                    self.wf(),
                    lv == self.lines_view(),
                    c == self.spec_content(),
                    start == self.spec_selection_start(),
                    end == self.spec_selection_end(),
                    s_off == point_off(lv, start),
                    point_ok(lv, start),
                    point_ok(lv, end),
                    start.spec_le(end),
                    e_off == point_off(lv, end),
                    start.line < l <= end.line + 1,
                    (end.line as int) < lv.len(),
                    l <= end.line ==> out@ == c.subrange(s_off, prefix_off(lv, l as int) - 1),
                    l == end.line + 1 ==> out@ == c.subrange(s_off, e_off),
                decreases end.line + 1 - l,
            {
                proof {
                    lemma_line_decomp(lv, l - 1);
                    lemma_line_decomp(lv, l as int);
                    lemma_prefix_off_nonneg(lv, l - 1);
                    assert(prefix_off(lv, l as int) == prefix_off(lv, l - 1) + lv[l - 1].len() + 1);
                    assert(c[prefix_off(lv, l as int) - 1] == 10);
                    lemma_line_decomp(lv, end.line as int);
                    crate::input::lemma_point_off_le(
                        lv,
                        start,
                        TextPoint { line: (l - 1) as usize, index: self.lines[l - 1].len() },
                    );
                    lemma_prefix_off_nonneg(lv, start.line as int);
                    assert(0 <= s_off);
                    assert(s_off <= prefix_off(lv, l as int) - 1);
                }
                out.push(10);
                proof {
                    let p = prefix_off(lv, l as int);
                    assert(out@.len() == p - s_off);
                    assert forall|j: int| 0 <= j < p - s_off implies out@[j] == c.subrange(
                        s_off,
                        p,
                    )[j] by {
                        if j < p - 1 - s_off {
                            assert(out@[j] == c.subrange(s_off, p - 1)[j]);
                        } else {
                            assert(out@[j] == 10);
                        }
                    }
                    assert(out@ =~= c.subrange(s_off, prefix_off(lv, l as int)));
                }
                if l < end.line {
                    let seg_l = slice_subrange(self.lines[l].as_slice(), 0, self.lines[l].len());
                    append_bytes(&mut out, seg_l);
                    proof {
                        assert(seg_l@ =~= lv[l as int]);
                        crate::model::lemma_content_line_seg(lv, l as int, 0, lv[l as int].len() as int);
                        assert(out@ =~= c.subrange(
                            s_off,
                            prefix_off(lv, l as int) + lv[l as int].len(),
                        ));
                        assert(prefix_off(lv, l + 1) == prefix_off(lv, l as int) + lv[l as int].len()
                            + 1);
                    }
                } else {
                    let seg_l = slice_subrange(self.lines[l].as_slice(), 0, end.index);
                    append_bytes(&mut out, seg_l);
                    proof {
                        crate::model::lemma_content_line_seg(lv, l as int, 0, end.index as int);
                        assert(out@ =~= c.subrange(s_off, prefix_off(lv, l as int) + end.index));
                    }
                }
                l = l + 1;
            }
            proof {
                assert(out@ == c.subrange(s_off, e_off));
            }
        }
        proof {
            self.lemma_selection_invariants();
        }
        out
    }

    /// The length of the selected text in UTF-16 code units.
    pub(crate) fn selection_utf16_len(&self) -> (r: usize)
        requires
            self.wf(),
        ensures
            r as int == utf16_len(self.spec_selection_text()),
    {
        let b = self.selection_bytes();
        utf16_count(b.as_slice())
    }

    /// The selected text, or nothing when it is empty.
    pub fn get_selection_text(&self) -> (r: Option<String>)
        requires
            self.wf(),
        ensures
            r.is_some() == (self.selection_origin.is_some() && self.spec_selection_text().len()
                > 0),
            r matches Some(s) ==> encode_utf8(s@) == self.spec_selection_text() && s@
                == decode_utf8(self.spec_selection_text()),
    {
        if !self.has_selection() {
            proof {
                self.lemma_selection_invariants();
            }
            return None;
        }
        let b = self.selection_bytes();
        if b.len() == 0 {
            None
        } else {
            proof {
                decode_utf8_encode_utf8(b@);
            }
            Some(string_from_utf8(b))
        }
    }
}

} // verus!
