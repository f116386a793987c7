use vstd::prelude::*;

use crate::text::{split_on, split_str, views};

verus! {

/// Why tag arguments were refused.
#[derive(Debug, Clone, Copy, PartialEq, Eq, Structural)]
pub enum TagError {
    /// An argument is not a `key:value` pair (it has no `:`).
    Format,
    /// A key is not one that the entry takes.
    UnknownKey,
}

/// The `(key, value)` pairs that the arguments give, in order: an argument with exactly
/// one `:` gives one pair, one with more is passed over.
pub open spec fn tag_pairs(elems: Seq<Seq<char>>) -> Seq<(Seq<char>, Seq<char>)>
    decreases elems.len(),
{
    if elems.len() == 0 {
        Seq::empty()
    } else {
        let rest = tag_pairs(elems.drop_last());
        let parts = split_on(elems.last(), ':');
        if parts.len() == 2 {
            rest.push((parts[0], parts[1]))
        } else {
            rest
        }
    }
}

/// Some argument has no `:` (it splits into a single piece).
pub open spec fn some_without_colon(elems: Seq<Seq<char>>) -> bool {
    exists|i: int| 0 <= i < elems.len() && #[trigger] split_on(elems[i], ':').len() < 2
}

/// The character sequences that a vector of string pairs holds.
pub open spec fn pair_views(v: Seq<(String, String)>) -> Seq<(Seq<char>, Seq<char>)> {
    v.map_values(|p: (String, String)| (p.0@, p.1@))
}

/// Reads `key:value` arguments. Every argument must hold a `:`; those with exactly one
/// give a pair, in order, and those with more are passed over.
pub fn get_tags(elements: &Vec<String>) -> (r: Result<Vec<(String, String)>, TagError>)
    ensures
        match r {
            Ok(v) => !some_without_colon(views(elements@)) && pair_views(v@) == tag_pairs(
                views(elements@),
            ),
            Err(e) => some_without_colon(views(elements@)) && e == TagError::Format,
        },
{
    let ghost es = views(elements@);
    let mut out: Vec<(String, String)> = Vec::new();
    let mut i: usize = 0;
    assert(es.subrange(0, 0) =~= Seq::<Seq<char>>::empty());
    assert(pair_views(out@) =~= tag_pairs(es.subrange(0, 0)));
    while i < elements.len()
        invariant
            es == views(elements@),
            i <= elements@.len(),
            pair_views(out@) == tag_pairs(es.subrange(0, i as int)),
            forall|k: int| 0 <= k < i ==> #[trigger] split_on(es[k], ':').len() >= 2,
        decreases elements@.len() - i,
    {
        let parts = split_str(elements[i].as_str(), ':');
        assert(es[i as int] == elements@[i as int]@);
        let ghost sub = es.subrange(0, i + 1);
        assert(sub.drop_last() =~= es.subrange(0, i as int));
        assert(sub.last() == es[i as int]);
        if parts.len() < 2 {
            assert(split_on(es[i as int], ':').len() < 2);
            return Err(TagError::Format);
        }
        if parts.len() == 2 {
            let key = parts[0].clone();
            let value = parts[1].clone();
            assert(views(parts@)[0] == parts@[0]@ && views(parts@)[1] == parts@[1]@);
            let ghost before = out@;
            out.push((key, value));
            assert(pair_views(out@) =~= pair_views(before).push((key@, value@)));
        }
        i += 1;
    }
    assert(es.subrange(0, i as int) =~= es);
    Ok(out)
}

/// The tags that an entry is given; an empty string stands for a tag that is not given.
#[derive(Debug)]
pub struct NoteTags {
    pub source: String,
    pub topic: String,
    pub context: String,
    pub content: String,
}

/// What a `NoteTags` holds, as a mathematical value.
pub ghost struct TagsView {
    pub source: Seq<char>,
    pub topic: Seq<char>,
    pub context: Seq<char>,
    pub content: Seq<char>,
}

impl View for NoteTags {
    type V = TagsView;

    open spec fn view(&self) -> TagsView {
        TagsView {
            source: self.source@,
            topic: self.topic@,
            context: self.context@,
            content: self.content@,
        }
    }
}

/// The tags after one `key:value` pair: the key's field takes the value, and a key that the
/// entry does not take (`content` only when `with_content`) is refused.
pub open spec fn set_tag(t: TagsView, key: Seq<char>, value: Seq<char>, with_content: bool) -> Option<TagsView> {
    if key == "source"@ {
        Some(TagsView { source: value, ..t })
    } else if key == "topic"@ {
        Some(TagsView { topic: value, ..t })
    } else if key == "context"@ {
        Some(TagsView { context: value, ..t })
    } else if with_content && key == "content"@ {
        Some(TagsView { content: value, ..t })
    } else {
        None
    }
}

/// The tags that the pairs give, later pairs overriding earlier ones.
pub open spec fn tags_of(pairs: Seq<(Seq<char>, Seq<char>)>, with_content: bool) -> Option<TagsView>
    decreases pairs.len(),
{
    if pairs.len() == 0 {
        Some(TagsView { source: Seq::empty(), topic: Seq::empty(), context: Seq::empty(), content: Seq::empty() })
    } else {
        match tags_of(pairs.drop_last(), with_content) {
            None => None,
            Some(t) => set_tag(t, pairs.last().0, pairs.last().1, with_content),
        }
    }
}

/// Whether `s` is the word `w`.
pub fn is_word(s: &String, w: &str) -> (r: bool)
    ensures
        r == (s@ == w@),
{
    *s == String::from_str(w)
}

impl NoteTags {
    /// Collects the pairs into tags, later pairs overriding earlier ones. The keys are
    /// `source`, `topic`, `context`, and `content` when `with_content`; any other is refused.
    pub fn from_pairs(pairs: &Vec<(String, String)>, with_content: bool) -> (r: Result<NoteTags, TagError>)
        ensures
            match tags_of(pair_views(pairs@), with_content) {
                Some(t) => r matches Ok(n) && n@ == t,
                None => r == Err::<NoteTags, TagError>(TagError::UnknownKey),
            },
    {
        let ghost ps = pair_views(pairs@);
        let mut t = NoteTags {
            source: String::new(),
            topic: String::new(),
            context: String::new(),
            content: String::new(),
        };
        let mut i: usize = 0;
        assert(ps.subrange(0, 0) =~= Seq::<(Seq<char>, Seq<char>)>::empty());
        while i < pairs.len()
            invariant
                ps == pair_views(pairs@),
                i <= pairs@.len(),
                tags_of(ps.subrange(0, i as int), with_content) == Some(t@),
            decreases pairs@.len() - i,
        {
            let ghost sub = ps.subrange(0, i + 1);
            assert(sub.drop_last() =~= ps.subrange(0, i as int));
            assert(sub.last() == (pairs@[i as int].0@, pairs@[i as int].1@));
            let key = &pairs[i].0;
            let value = pairs[i].1.clone();
            if is_word(key, "source") {
                t.source = value;
            } else if is_word(key, "topic") {
                t.topic = value;
            } else if is_word(key, "context") {
                t.context = value;
            } else if with_content && is_word(key, "content") {
                t.content = value;
            } else {
                proof {
                    lemma_tags_of_none(ps, i as int + 1, with_content);
                }
                return Err(TagError::UnknownKey);
            }
            i += 1;
        }
        assert(ps.subrange(0, i as int) =~= ps);
        Ok(t)
    }
}

/// Once a prefix of the pairs is refused, the whole list is.
pub proof fn lemma_tags_of_none(ps: Seq<(Seq<char>, Seq<char>)>, n: int, with_content: bool)
    requires
        0 <= n <= ps.len(),
        tags_of(ps.subrange(0, n), with_content) is None,
    ensures
        tags_of(ps, with_content) is None,
    decreases ps.len() - n,
{
    if n < ps.len() {
        let sub = ps.subrange(0, n + 1);
        assert(sub.drop_last() =~= ps.subrange(0, n));
        lemma_tags_of_none(ps, n + 1, with_content);
    } else {
        assert(ps.subrange(0, n) =~= ps);
    }
}

} // verus!
