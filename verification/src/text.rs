//! Rich text segments, consumed at their interface boundary: each segment
//! exposes the plain text it renders to. Formatting detail beyond that is
//! outside this crate's scope.

use vstd::prelude::*;
use vstd::string::StringExecFns;

verus! {

/// One segment of rich text.
#[derive(Debug, Clone, PartialEq, Eq)]
pub struct RichText {
    /// The plain text the segment renders to.
    pub plain_text: String,
}

impl RichText {
    /// The segment's text.
    pub open spec fn view(self) -> Seq<char> {
        self.plain_text@
    }

    /// The plain text the segment renders to.
    pub fn plain_text(&self) -> (r: &String)
        ensures
            r@ == self@,
    {
        &self.plain_text
    }
}

/// The texts of a sequence of segments, segment by segment.
pub open spec fn text_models(s: Seq<RichText>) -> Seq<Seq<char>> {
    Seq::new(s.len(), |i: int| s[i]@)
}

/// The concatenation of a sequence of texts.
pub open spec fn concat_texts(s: Seq<Seq<char>>) -> Seq<char>
    decreases s.len(),
{
    if s.len() == 0 {
        Seq::empty()
    } else {
        s[0] + concat_texts(s.subrange(1, s.len() as int))
    }
}

/// Concatenate the plain texts of a run of segments.
pub fn concat_plain_text(texts: &Vec<RichText>) -> (r: String)
    ensures
        r@ == concat_texts(text_models(texts@)),
{
    let ghost full = text_models(texts@);
    let mut r = String::new();
    let mut i: usize = 0;
    proof {
        assert(full.subrange(0, 0).len() == 0);
    }
    while i < texts.len()
        invariant
            i <= texts@.len(),
            full == text_models(texts@),
            r@ == concat_texts(full.subrange(0, i as int)),
        decreases texts@.len() - i,
    {
        r.append(texts[i].plain_text.as_str());
        proof {
            lemma_concat_texts_snoc(full, i as int);
        }
        i = i + 1;
    }
    proof {
        assert(full.subrange(0, full.len() as int) =~= full);
    }
    r
}

/// Concatenating one more text appends it on the right.
proof fn lemma_concat_texts_snoc(s: Seq<Seq<char>>, i: int)
    requires
        0 <= i < s.len(),
    ensures
        concat_texts(s.subrange(0, i + 1)) == concat_texts(s.subrange(0, i)) + s[i],
    decreases i,
{
    let a = s.subrange(0, i + 1);
    let b = s.subrange(0, i);
    if i == 0 {
        assert(a.subrange(1, a.len() as int) =~= Seq::<Seq<char>>::empty());
        assert(concat_texts(a.subrange(1, a.len() as int)) =~= Seq::<char>::empty());
        assert(concat_texts(a) =~= s[0] + Seq::<char>::empty());
        assert(concat_texts(b) =~= Seq::<char>::empty());
        assert(concat_texts(b) + s[0] =~= s[0]);
        assert(concat_texts(a) =~= concat_texts(b) + s[i]);
    } else {
        let t = s.subrange(1, s.len() as int);
        lemma_concat_texts_snoc(t, i - 1);
        assert(a.subrange(1, a.len() as int) =~= t.subrange(0, i));
        assert(b.subrange(1, b.len() as int) =~= t.subrange(0, i - 1));
        assert(t[i - 1] == s[i]);
        assert(concat_texts(a) == a[0] + concat_texts(t.subrange(0, i)));
        assert(concat_texts(b) == b[0] + concat_texts(t.subrange(0, i - 1)));
        assert(concat_texts(a) =~= concat_texts(b) + s[i]) by {
            assert(concat_texts(t.subrange(0, i)) == concat_texts(t.subrange(0, i - 1)) + t[i
                - 1]);
            assert(a[0] == s[0] && b[0] == s[0]);
        }
    }
}

} // verus!
