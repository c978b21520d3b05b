//! A synthesized listing of every package of a graph, one line each, with the
//! byte span of each line, so diagnostics about a package can point at it.
use crate::ident::Span;
use crate::krates::{Krate, Krates};
use vstd::prelude::*;
use vstd::utf8::encode_utf8;

verus! {

/// Where a package comes from: its source if it has one, else its manifest directory.
pub open spec fn origin(k: Krate) -> Seq<char> {
    match k.source {
        Some(s) => s@,
        None => k.manifest_dir@,
    }
}

/// The line that stands for a package: `<name> <version> <origin>`.
pub open spec fn krate_line(k: Krate) -> Seq<char> {
    k.name@ + " "@ + k.version@ + " "@ + origin(k)
}

/// The lines of `ks`, each ended by a newline.
pub open spec fn lines_text(ks: Seq<Krate>) -> Seq<char>
    decreases ks.len(),
{
    if ks.len() == 0 {
        seq![]
    } else {
        lines_text(ks.drop_last()) + krate_line(ks.last()) + "\n"@
    }
}

/// The length of `s` in UTF-8 bytes.
pub open spec fn byte_len(s: Seq<char>) -> nat {
    encode_utf8(s).len()
}

/// Encoding a concatenation concatenates the encodings.
pub proof fn lemma_encode_concat(a: Seq<char>, b: Seq<char>)
    ensures
        encode_utf8(a + b) == encode_utf8(a) + encode_utf8(b),
    decreases a.len(),
{
    if a.len() == 0 {
        assert(a + b =~= b);
        assert(encode_utf8(a) + encode_utf8(b) =~= encode_utf8(b));
    } else {
        assert((a + b).drop_first() =~= a.drop_first() + b);
        assert((a + b)[0] == a[0]);
        lemma_encode_concat(a.drop_first(), b);
        assert(encode_utf8(a + b) =~= encode_utf8(a) + encode_utf8(b));
    }
}

proof fn lemma_newline_len()
    ensures
        byte_len("\n"@) == 1,
{
    reveal_strlit("\n");
    assert("\n"@.drop_first() =~= Seq::<char>::empty());
    assert(encode_utf8(Seq::<char>::empty()) =~= Seq::<u8>::empty());
}

/// The encoding of the lines of the first `j` packages begins the encoding of all lines.
proof fn lemma_lines_prefix(ks: Seq<Krate>, j: int)
    requires
        0 <= j <= ks.len(),
    ensures
        byte_len(lines_text(ks.take(j))) <= byte_len(lines_text(ks)),
        encode_utf8(lines_text(ks)).subrange(0, byte_len(lines_text(ks.take(j))) as int)
            == encode_utf8(lines_text(ks.take(j))),
    decreases ks.len(),
{
    if j == ks.len() {
        assert(ks.take(j) =~= ks);
        assert(encode_utf8(lines_text(ks)).subrange(0, byte_len(lines_text(ks)) as int)
            =~= encode_utf8(lines_text(ks)));
    } else {
        let rest = ks.drop_last();
        assert(rest.take(j) =~= ks.take(j));
        lemma_lines_prefix(rest, j);
        let a = lines_text(rest);
        let b = krate_line(ks.last()) + "\n"@;
        assert(lines_text(ks) =~= a + b);
        lemma_encode_concat(a, b);
        assert(encode_utf8(lines_text(ks)).subrange(0, byte_len(lines_text(ks.take(j))) as int)
            =~= encode_utf8(a).subrange(0, byte_len(lines_text(ks.take(j))) as int));
    }
}

/// The span of one package's line.
pub struct KrateSpan {
    span: Span,
}

/// The spans of the lines of a graph's packages, indexed by node.
pub struct KrateSpans {
    spans: Vec<KrateSpan>,
}

impl KrateSpans {
    /// The span of each node's line, in node order.
    pub closed spec fn spans(&self) -> Seq<Span> {
        Seq::new(self.spans@.len(), |i: int| self.spans@[i].span)
    }

    /// Writes one line per package of `krates`, in node order, and records the
    /// byte span of each line without its newline.
    pub fn new(krates: &Krates) -> (r: (KrateSpans, String))
        requires
            byte_len(lines_text(krates.krates@)) <= u32::MAX,
        ensures
            r.1@ == lines_text(krates.krates@),
            r.0.spans().len() == krates.krates@.len(),
            forall|i: int|
                0 <= i < krates.krates@.len() ==> {
                    &&& (#[trigger] r.0.spans()[i]).start == byte_len(
                        lines_text(krates.krates@.take(i)),
                    )
                    &&& r.0.spans()[i].end == r.0.spans()[i].start + byte_len(
                        krate_line(krates.krates@[i]),
                    )
                    &&& encode_utf8(r.1@).subrange(
                        r.0.spans()[i].start as int,
                        r.0.spans()[i].end as int,
                    ) == encode_utf8(krate_line(krates.krates@[i]))
                },
    {
        let ghost ks = krates.krates@;
        let mut sl = String::new();
        let mut spans: Vec<KrateSpan> = Vec::new();
        let mut i: usize = 0;
        proof {
            assert(ks.take(0) =~= Seq::<Krate>::empty());
            assert(sl@ =~= lines_text(ks.take(0)));
        }
        while i < krates.krates.len()
            invariant
                ks == krates.krates@,
                i <= ks.len(),
                byte_len(lines_text(ks)) <= u32::MAX,
                sl@ == lines_text(ks.take(i as int)),
                spans@.len() == i,
                forall|m: int|
                    0 <= m < i ==> {
                        &&& (#[trigger] spans@[m]).span.start == byte_len(
                            lines_text(ks.take(m)),
                        )
                        &&& spans@[m].span.end == spans@[m].span.start + byte_len(
                            krate_line(ks[m]),
                        )
                    },
            decreases ks.len() - i,
        {
            let krate = &krates.krates[i];
            proof {
                lemma_lines_prefix(ks, i as int);
                lemma_lines_prefix(ks, i + 1);
                let line = krate_line(ks[i as int]);
                assert(ks.take(i + 1).drop_last() =~= ks.take(i as int));
                assert(lines_text(ks.take(i + 1)) == lines_text(ks.take(i as int)) + line + "\n"@);
                lemma_encode_concat(lines_text(ks.take(i as int)), line);
                lemma_encode_concat(lines_text(ks.take(i as int)) + line, "\n"@);
                lemma_newline_len();
            }
            let span_start = sl.as_str().len();
            sl.append(krate.name.as_str());
            sl.append(" ");
            sl.append(krate.version.as_str());
            sl.append(" ");
            match &krate.source {
                Some(src) => sl.append(src.as_str()),
                None => sl.append(krate.manifest_dir.as_str()),
            }
            sl.append("\n");
            proof {
                assert(sl@ =~= lines_text(ks.take(i + 1)));
            }
            let span_end = sl.as_str().len() - 1;
            spans.push(KrateSpan { span: Span { start: span_start as u32, end: span_end as u32 } });
            i = i + 1;
        }
        proof {
            assert(ks.take(ks.len() as int) =~= ks);
            assert forall|i: int| 0 <= i < ks.len() implies encode_utf8(sl@).subrange(
                spans@[i].span.start as int,
                spans@[i].span.end as int,
            ) == encode_utf8(krate_line(ks[i])) by {
                let line = krate_line(ks[i]);
                let pre = lines_text(ks.take(i));
                lemma_lines_prefix(ks, i + 1);
                assert(ks.take(i + 1).drop_last() =~= ks.take(i));
                lemma_encode_concat(pre, line);
                lemma_encode_concat(pre + line, "\n"@);
                let whole = encode_utf8(sl@);
                let head = encode_utf8(lines_text(ks.take(i + 1)));
                assert(whole.subrange(spans@[i].span.start as int, spans@[i].span.end as int)
                    =~= head.subrange(spans@[i].span.start as int, spans@[i].span.end as int));
                assert(head =~= encode_utf8(pre) + encode_utf8(line) + encode_utf8("\n"@));
                assert(head.subrange(spans@[i].span.start as int, spans@[i].span.end as int)
                    =~= encode_utf8(line));
            }
        }
        let r = KrateSpans { spans };
        proof {
            assert(r.spans().len() == ks.len());
        }
        (r, sl)
    }

    /// The number of spans, one per node.
    pub fn len(&self) -> (r: usize)
        ensures
            r == self.spans().len(),
    {
        self.spans.len()
    }

    /// The span of node `i`'s line.
    pub fn index(&self, i: usize) -> (r: &Span)
        requires
            i < self.spans().len(),
        ensures
            *r == self.spans()[i as int],
    {
        &self.spans[i].span
    }
}

} // verus!
