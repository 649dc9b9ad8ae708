//! What a listing of torrents and of their files shows: the files of a
//! torrent with their paths joined, torrents in the order of their sizes,
//! and the width of the numbers that count them.

use crate::decimal::decimal;
use crate::encode::{lemma_insert_names_next, names_each_once};
use crate::metadata::{File, Torrent};
use crate::schema::{FileModel, InfoModel};
use vstd::prelude::*;
use vstd::string::StringExecFns;

verus! {

/// Count the number of digits in a number: the width that printing it
/// takes.
pub fn digit_count(number: usize) -> (count: usize)
    ensures
        count == decimal(number as nat).len(),
        count >= 1,
{
    let mut count: usize = 1;
    let mut rest: usize = number;
    while rest >= 10
        invariant
            count >= 1,
            count + rest <= number + 1,
            count + decimal(rest as nat).len() == decimal(number as nat).len() + 1,
        decreases rest,
    {
        rest = rest / 10;
        count += 1;
    }
    count
}

/// The first `n` segments of a path, joined by `/`.
pub open spec fn joined(segments: Seq<Seq<char>>, n: nat) -> Seq<char>
    decreases n,
{
    if n == 0 || n > segments.len() {
        Seq::empty()
    } else if n == 1 {
        segments[0]
    } else {
        joined(segments, (n - 1) as nat) + seq!['/'] + segments[n - 1]
    }
}

/// One line of a file listing: the size of a file and its path as text.
#[derive(Debug)]
pub struct FileLine {
    pub size: i64,
    pub path: String,
}

/// One line of a file listing.
pub ghost struct FileLineModel {
    pub size: i64,
    pub path: Seq<char>,
}

impl DeepView for FileLine {
    type V = FileLineModel;

    open spec fn deep_view(&self) -> FileLineModel {
        FileLineModel { size: self.size, path: self.path@ }
    }
}

/// The line that lists a file.
pub open spec fn file_line(file: FileModel) -> FileLineModel {
    FileLineModel { size: file.length, path: joined(file.path, file.path.len()) }
}

/// The files that a torrent is listed with: the files of its file list, or,
/// where it has none, one file named like the torrent and as long as its
/// single file.
pub open spec fn listing_spec(info: InfoModel) -> Seq<FileLineModel> {
    match info.files {
        Some(files) => Seq::new(files.len(), |i: int| file_line(files[i])),
        None => seq![
            FileLineModel {
                size: match info.length {
                    Some(length) => length,
                    None => 0,
                },
                path: match info.name {
                    Some(name) => name,
                    None => Seq::empty(),
                },
            },
        ],
    }
}

impl File {
    /// The path of the file as text: its segments joined by `/`.
    pub fn display_path(&self) -> (text: String)
        ensures
            text@ == joined(self@.path, self@.path.len()),
    {
        let ghost segments = self.path.deep_view();
        let mut text = String::new();
        let mut i: usize = 0;
        while i < self.path.len()
            invariant
                i <= self.path.len(),
                segments == self.path.deep_view(),
                text@ == joined(segments, i as nat),
            decreases self.path.len() - i,
        {
            if i > 0 {
                text.push('/');
            }
            assert(segments[i as int] == self.path@[i as int]@);
            text.append(self.path[i].as_str());
            assert(text@ =~= joined(segments, (i + 1) as nat));
            i += 1;
        }
        text
    }
}

impl Torrent {
    /// The files that the torrent is listed with.
    pub fn file_listing(&self) -> (lines: Vec<FileLine>)
        ensures
            lines.deep_view() == listing_spec(self@.info),
    {
        let mut lines: Vec<FileLine> = Vec::new();
        match &self.info.files {
            Some(files) => {
                let ghost models = files.deep_view();
                let mut i: usize = 0;
                while i < files.len()
                    invariant
                        i <= files.len(),
                        models == files.deep_view(),
                        lines.len() == i,
                        forall|j: int|
                            0 <= j < i ==> (#[trigger] lines@[j]).deep_view() == file_line(models[j]),
                    decreases files.len() - i,
                {
                    assert(models[i as int] == files@[i as int]@);
                    lines.push(FileLine { size: files[i].length, path: files[i].display_path() });
                    i += 1;
                }
                assert(lines.deep_view() =~= listing_spec(self@.info));
            },
            None => {
                let size = match self.info.length {
                    Some(length) => length,
                    None => 0,
                };
                let path = match &self.info.name {
                    Some(name) => String::from_str(name.as_str()),
                    None => String::new(),
                };
                lines.push(FileLine { size, path });
                assert(lines.deep_view() =~= listing_spec(self@.info));
            },
        }
        lines
    }
}

/// `order` lists positions of `sizes` by ascending size, and positions of
/// equal size in their own order.
pub open spec fn by_ascending_size(sizes: Seq<i64>, order: Seq<usize>) -> bool {
    forall|p: int, q: int|
        0 <= p < q < order.len() ==> {
            let a = #[trigger] order[p] as int;
            let b = #[trigger] order[q] as int;
            sizes[a] < sizes[b] || (sizes[a] == sizes[b] && a < b)
        }
}

/// The positions of `sizes` from the smallest size to the largest; equal
/// sizes stay in the order they came in.
pub fn order_by_size(sizes: &[i64]) -> (order: Vec<usize>)
    ensures
        names_each_once(order@, sizes@.len()),
        by_ascending_size(sizes@, order@),
{
    let mut order: Vec<usize> = Vec::new();
    let mut i: usize = 0;
    while i < sizes.len()
        invariant
            i <= sizes.len(),
            names_each_once(order@, i as nat),
            by_ascending_size(sizes@, order@),
        decreases sizes.len() - i,
    {
        let mut p: usize = 0;
        while p < order.len() && sizes[order[p]] <= sizes[i]
            invariant
                p <= order.len(),
                i < sizes.len(),
                names_each_once(order@, i as nat),
                forall|q: int| 0 <= q < p ==> sizes@[(#[trigger] order@[q]) as int] <= sizes@[i as int],
            decreases order.len() - p,
        {
            p += 1;
        }
        let ghost before = order@;
        order.insert(p, i);
        proof {
            let after = order@;
            assert forall|x: int, y: int| 0 <= x < y < after.len() implies {
                let a = #[trigger] after[x] as int;
                let b = #[trigger] after[y] as int;
                sizes@[a] < sizes@[b] || (sizes@[a] == sizes@[b] && a < b)
            } by {
                if y < p {
                    assert(after[x] == before[x] && after[y] == before[y]);
                } else if y == p {
                    assert(after[x] == before[x]);
                } else if x < p {
                    assert(after[x] == before[x] && after[y] == before[y - 1]);
                } else if x == p {
                    assert(after[y] == before[y - 1]);
                } else {
                    assert(after[x] == before[x - 1] && after[y] == before[y - 1]);
                }
            }
            lemma_insert_names_next(before, p as int, i);
        }
        i += 1;
    }
    order
}

/// The sum of the first `n` sizes.
pub open spec fn sizes_sum(sizes: Seq<i64>, n: nat) -> int
    decreases n,
{
    if n == 0 || n > sizes.len() {
        0
    } else {
        sizes_sum(sizes, (n - 1) as nat) + sizes[n - 1]
    }
}

/// The sum of the sizes.
pub fn total_of(sizes: &[i64]) -> (total: i128)
    ensures
        total == sizes_sum(sizes@, sizes@.len()),
{
    let mut total: i128 = 0;
    let mut i: usize = 0;
    while i < sizes.len()
        invariant
            i <= sizes.len(),
            total == sizes_sum(sizes@, i as nat),
            -0x8000_0000_0000_0000 * i <= total <= 0x8000_0000_0000_0000 * i,
        decreases sizes.len() - i,
    {
        total = total + sizes[i] as i128;
        i += 1;
    }
    total
}

} // verus!
