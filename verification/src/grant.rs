//! Grants as they are written in configuration: a string of tokens with
//! commas between them, or a list of such strings.

use vstd::prelude::*;
use crate::text::{
    lemma_split_pieces, lemma_split_without_separator, lemma_trimmed_idempotent,
    lemma_trimmed_within, split_at_char, split_on, trim, trimmed, views,
};

verus! {

/// A token as a grant keeps it: not empty, trimmed, and without a comma.
pub open spec fn is_token(t: Seq<char>) -> bool {
    t.len() > 0 && trimmed(t) == t && !t.contains(',')
}

/// The pieces that are kept: each one trimmed, the empty ones left out.
pub open spec fn kept(pieces: Seq<Seq<char>>) -> Seq<Seq<char>>
    decreases pieces.len(),
{
    if pieces.len() == 0 {
        Seq::<Seq<char>>::empty()
    } else if trimmed(pieces.last()).len() == 0 {
        kept(pieces.drop_last())
    } else {
        kept(pieces.drop_last()).push(trimmed(pieces.last()))
    }
}

/// The tokens of one written value.
pub open spec fn tokens_of(value: Seq<char>) -> Seq<Seq<char>> {
    kept(split_on(value, ','))
}

/// The tokens of a list of written values, in the order in which they stand.
pub open spec fn all_tokens(values: Seq<Seq<char>>) -> Seq<Seq<char>>
    decreases values.len(),
{
    if values.len() == 0 {
        Seq::<Seq<char>>::empty()
    } else {
        all_tokens(values.drop_last()) + tokens_of(values.last())
    }
}

/// The value that a grant is written as: one string, or a list of strings.
#[derive(Debug, Clone, PartialEq, Eq)]
pub enum SpecValue {
    Text(String),
    List(Vec<String>),
}

/// The tokens that a written value is read as.
pub open spec fn parsed(value: SpecValue) -> Seq<Seq<char>> {
    match value {
        SpecValue::Text(text) => tokens_of(text@),
        SpecValue::List(items) => all_tokens(views(items@)),
    }
}

/// Whether `value` is the form in which the tokens are written: the token
/// itself where there is exactly one, else the list of them.
pub open spec fn written_as(tokens: Seq<Seq<char>>, value: SpecValue) -> bool {
    match value {
        SpecValue::Text(text) => tokens == seq![text@],
        SpecValue::List(items) => tokens.len() != 1 && views(items@) == tokens,
    }
}

/// The ordered tokens of one grant.
#[derive(Debug, Clone, PartialEq, Eq)]
pub struct PermissionSpec {
    entries: Vec<String>,
}

impl View for PermissionSpec {
    type V = Seq<Seq<char>>;

    closed spec fn view(&self) -> Seq<Seq<char>> {
        views(self.entries@)
    }
}

impl Default for PermissionSpec {
    fn default() -> (r: PermissionSpec)
        ensures
            r.wf(),
            r@ == Seq::<Seq<char>>::empty(),
    {
        let r = PermissionSpec { entries: Vec::new() };
        assert(r@ =~= Seq::<Seq<char>>::empty());
        r
    }
}

impl PermissionSpec {
    /// Every entry is a token.
    pub open spec fn wf(&self) -> bool {
        forall|i: int| 0 <= i < self@.len() ==> is_token(#[trigger] self@[i])
    }

    /// Reads a list of written values.
    pub fn from_vec(values: Vec<String>) -> (r: PermissionSpec)
        ensures
            r.wf(),
            r@ == all_tokens(views(values@)),
    {
        let mut entries: Vec<String> = Vec::new();
        let n = values.len();
        let mut i: usize = 0;
        assert(views(values@).take(0) =~= Seq::<Seq<char>>::empty());
        assert(views(entries@) =~= Seq::<Seq<char>>::empty());
        while i < n
            invariant
                i <= n,
                n == values.len(),
                views(entries@) == all_tokens(views(values@).take(i as int)),
                forall|k: int| 0 <= k < entries.len() ==> is_token(#[trigger] views(entries@)[k]),
            decreases n - i,
        {
            let pieces = split_at_char(values[i].as_str(), ',');
            let ghost done = views(entries@);
            let ghost value = values@[i as int]@;
            let m = pieces.len();
            let mut j: usize = 0;
            proof {
                assert(views(pieces@).take(0) =~= Seq::<Seq<char>>::empty());
                assert(done + kept(views(pieces@).take(0)) =~= done);
                lemma_split_pieces(value, ',');
            }
            while j < m
                invariant
                    j <= m,
                    m == pieces.len(),
                    views(pieces@) == split_on(value, ','),
                    forall|k: int|
                        0 <= k < m ==> !(#[trigger] split_on(value, ',')[k]).contains(','),
                    views(entries@) == done + kept(views(pieces@).take(j as int)),
                    forall|k: int|
                        0 <= k < entries.len() ==> is_token(#[trigger] views(entries@)[k]),
                decreases m - j,
            {
                let ghost before = views(entries@);
                let ghost piece = views(pieces@)[j as int];
                proof {
                    assert(views(pieces@).take(j + 1).drop_last() =~= views(pieces@).take(
                        j as int,
                    ));
                    assert(views(pieces@).take(j + 1).last() == piece);
                    assert(piece == pieces@[j as int]@);
                }
                let token = trim(pieces[j].as_str());
                if !token.is_empty() {
                    entries.push(token.to_owned());
                    proof {
                        let now = views(entries@);
                        assert(now =~= before.push(trimmed(piece)));
                        assert(now =~= done + kept(views(pieces@).take(j + 1)));
                        lemma_trimmed_idempotent(piece);
                        if trimmed(piece).contains(',') {
                            lemma_trimmed_within(piece, ',');
                        }
                        assert forall|k: int| 0 <= k < entries.len() implies is_token(
                            #[trigger] now[k],
                        ) by {
                            if k < before.len() {
                                assert(now[k] == before[k]);
                            }
                        }
                    }
                }
                j += 1;
            }
            proof {
                assert(views(pieces@).take(m as int) =~= views(pieces@));
                assert(views(values@).take(i + 1).drop_last() =~= views(values@).take(i as int));
                assert(views(values@).take(i + 1).last() == value);
            }
            i += 1;
        }
        assert(views(values@).take(n as int) =~= views(values@));
        PermissionSpec { entries }
    }

    /// Reads one written value.
    pub fn from_string(value: String) -> (r: PermissionSpec)
        ensures
            r.wf(),
            r@ == tokens_of(value@),
    {
        let ghost text = value@;
        let mut values: Vec<String> = Vec::new();
        values.push(value);
        proof {
            assert(views(values@) =~= seq![text]);
            assert(seq![text].drop_last() =~= Seq::<Seq<char>>::empty());
            assert(seq![text].last() == text);
            assert(all_tokens(Seq::<Seq<char>>::empty()) =~= Seq::<Seq<char>>::empty());
            assert(all_tokens(seq![text]) =~= tokens_of(text));
        }
        PermissionSpec::from_vec(values)
    }

    /// Reads a grant from the value that it was written as.
    pub fn from_value(value: SpecValue) -> (r: PermissionSpec)
        ensures
            r.wf(),
            r@ == parsed(value),
    {
        match value {
            SpecValue::Text(text) => PermissionSpec::from_string(text),
            SpecValue::List(items) => PermissionSpec::from_vec(items),
        }
    }

    /// The value that the grant is written as: a single token as a string,
    /// none or several as a list.
    pub fn to_value(&self) -> (r: SpecValue)
        ensures
            written_as(self@, r),
    {
        if self.entries.len() == 1 {
            let text = self.entries[0].clone();
            assert(self@ =~= seq![text@]);
            SpecValue::Text(text)
        } else {
            let mut items: Vec<String> = Vec::new();
            let n = self.entries.len();
            let mut i: usize = 0;
            while i < n
                invariant
                    i <= n,
                    n == self.entries.len(),
                    items.len() == i,
                    forall|k: int| 0 <= k < i ==> items@[k]@ == self.entries@[k]@,
                decreases n - i,
            {
                items.push(self.entries[i].clone());
                i += 1;
            }
            assert(views(items@) =~= self@);
            SpecValue::List(items)
        }
    }

    /// The tokens in the order in which they were written.
    pub fn tokens(&self) -> (r: &Vec<String>)
        ensures
            views(r@) == self@,
    {
        &self.entries
    }
}

/// A token, read as a written value, is that one token.
pub proof fn lemma_token_reads_as_itself(t: Seq<char>)
    requires
        is_token(t),
    ensures
        tokens_of(t) == seq![t],
{
    lemma_split_without_separator(t, ',');
    assert(seq![t].drop_last() =~= Seq::<Seq<char>>::empty());
    assert(seq![t].last() == t);
    assert(kept(Seq::<Seq<char>>::empty()) =~= Seq::<Seq<char>>::empty());
    assert(kept(seq![t]) =~= seq![t]);
}

/// A list of tokens, read as a list of written values, is that list.
pub proof fn lemma_tokens_read_as_themselves(tokens: Seq<Seq<char>>)
    requires
        forall|i: int| 0 <= i < tokens.len() ==> is_token(#[trigger] tokens[i]),
    ensures
        all_tokens(tokens) == tokens,
    decreases tokens.len(),
{
    if tokens.len() > 0 {
        let init = tokens.drop_last();
        assert forall|i: int| 0 <= i < init.len() implies is_token(#[trigger] init[i]) by {
            assert(init[i] == tokens[i]);
        }
        lemma_tokens_read_as_themselves(init);
        lemma_token_reads_as_itself(tokens.last());
        assert(init + seq![tokens.last()] =~= tokens);
    } else {
        assert(tokens =~= Seq::<Seq<char>>::empty());
    }
}

/// Writing a grant and reading it again gives the same tokens in the same
/// order, whether it was written as one string or as a list.
pub proof fn lemma_written_grant_reads_back(spec: PermissionSpec, value: SpecValue)
    requires
        spec.wf(),
        written_as(spec@, value),
    ensures
        parsed(value) == spec@,
{
    match value {
        SpecValue::Text(text) => {
            assert(spec@[0] == text@);
            lemma_token_reads_as_itself(text@);
        },
        SpecValue::List(items) => {
            lemma_tokens_read_as_themselves(spec@);
        },
    }
}

} // verus!
