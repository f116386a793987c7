use vstd::prelude::*;

use vstd::utf8::encode_utf8;

verus! {

/// One line of the listing of recent notes, as text.
#[derive(Debug)]
pub struct LastRow {
    pub id: String,
    pub content: String,
    pub topic: String,
    pub context: String,
    pub source: String,
}

/// What a `LastRow` holds, as a mathematical value.
pub ghost struct RowView {
    pub id: Seq<char>,
    pub content: Seq<char>,
    pub topic: Seq<char>,
    pub context: Seq<char>,
    pub source: Seq<char>,
}

impl View for LastRow {
    type V = RowView;

    open spec fn view(&self) -> RowView {
        RowView {
            id: self.id@,
            content: self.content@,
            topic: self.topic@,
            context: self.context@,
            source: self.source@,
        }
    }
}

/// The number of bytes that the text takes in UTF-8.
pub open spec fn byte_len(s: Seq<char>) -> nat {
    encode_utf8(s).len()
}

/// Column `k` of a row: id, content, topic, context, source.
pub open spec fn column(r: RowView, k: int) -> Seq<char> {
    if k == 0 {
        r.id
    } else if k == 1 {
        r.content
    } else if k == 2 {
        r.topic
    } else if k == 3 {
        r.context
    } else {
        r.source
    }
}

/// The width of column `k`'s header: `id`, `content`, `topic`, `context`, `source`.
pub open spec fn header_width(k: int) -> nat {
    if k == 0 {
        2
    } else if k == 1 {
        7
    } else if k == 2 {
        5
    } else if k == 3 {
        7
    } else {
        6
    }
}

/// The width of column `k`: the largest of its header's and its values' byte lengths.
pub open spec fn column_width(rows: Seq<RowView>, k: int) -> nat
    decreases rows.len(),
{
    if rows.len() == 0 {
        header_width(k)
    } else {
        let w = column_width(rows.drop_last(), k);
        let b = byte_len(column(rows.last(), k));
        if w >= b {
            w
        } else {
            b
        }
    }
}

/// The byte length of a string.
fn width_of(s: &String) -> (r: usize)
    ensures
        r == byte_len(s@),
{
    let b = s.as_str().as_bytes();
    b.len()
}

/// The widths of the five columns of the listing: for each, the largest byte length of
/// its header and of its values in `rows`.
pub fn calculate_max_widths(rows: &Vec<LastRow>) -> (r: Vec<usize>)
    ensures
        r@.len() == 5,
        forall|k: int| 0 <= k < 5 ==> r@[k] == column_width(rows@.map_values(|x: LastRow| x@), k),
{
    let ghost rs = rows@.map_values(|x: LastRow| x@);
    let mut w: Vec<usize> = vec![2, 7, 5, 7, 6];
    let mut i: usize = 0;
    assert(rs.subrange(0, 0) =~= Seq::<RowView>::empty());
    while i < rows.len()
        invariant
            rs == rows@.map_values(|x: LastRow| x@),
            i <= rows@.len(),
            w@.len() == 5,
            forall|k: int| 0 <= k < 5 ==> w@[k] == column_width(rs.subrange(0, i as int), k),
        decreases rows@.len() - i,
    {
        let ghost sub = rs.subrange(0, i + 1);
        assert(sub.drop_last() =~= rs.subrange(0, i as int));
        assert(sub.last() == rows@[i as int]@);
        let row = &rows[i];
        let ws: [usize; 5] = [
            width_of(&row.id),
            width_of(&row.content),
            width_of(&row.topic),
            width_of(&row.context),
            width_of(&row.source),
        ];
        let ghost before = w@;
        let mut k: usize = 0;
        while k < 5
            invariant
                w@.len() == 5,
                before.len() == 5,
                sub.len() == i + 1,
                k <= 5,
                forall|j: int| 0 <= j < 5 ==> ws@[j] == byte_len(column(sub.last(), j)),
                forall|j: int|
                    0 <= j < k ==> w@[j] == column_width(sub, j),
                forall|j: int| k <= j < 5 ==> w@[j] == before[j],
                forall|j: int| 0 <= j < 5 ==> before[j] == column_width(sub.drop_last(), j),
            decreases 5 - k,
        {
            assert(column_width(sub, k as int) == if before[k as int] >= ws@[k as int] {
                before[k as int] as nat
            } else {
                ws@[k as int] as nat
            });
            if ws[k] > w[k] {
                w.set(k, ws[k]);
            }
            k += 1;
        }
        i += 1;
    }
    assert(rs.subrange(0, i as int) =~= rs);
    w
}

} // verus!
