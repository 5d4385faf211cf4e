//! What a reading of PLY files gives from the first point to the last.

use vstd::prelude::*;
use crate::binary64::Real;
use crate::ply::reader::{
    may_happen, reading, responds, ReadAction, ReadEvent, ReaderState,
};
use crate::ply::types::{stride_of, HeaderView, PlyFormat};
use crate::ply::vertex::{fields_point, holds_point};
use crate::point::Point;
#[allow(unused_imports)]
use crate::text::lemma_blank;
use crate::text::{blank, trimmed, words};

verus! {

/// A PLY file as it is read.
pub struct FileView {
    pub header: HeaderView,
    /// The lines behind the header of a text file, each with the number that
    /// each of its fields writes, if it writes one.
    pub lines: Seq<(Seq<char>, Seq<Option<Real>>)>,
    /// The whole records behind the header of a binary file.
    pub records: Seq<Seq<u8>>,
}

impl FileView {
    /// Whether this is a text file.
    pub open spec fn text(self) -> bool {
        self.header.format == PlyFormat::Ascii
    }

    /// The number of lines or of records behind the header.
    pub open spec fn len(self) -> nat {
        if self.text() {
            self.lines.len()
        } else {
            self.records.len()
        }
    }

    /// Whether there is a record at an index: a line is one unless it is blank.
    pub open spec fn is_record(self, i: int) -> bool {
        self.text() ==> trimmed(self.lines[i].0).len() > 0
    }

    /// The indices of the records among the first `n` lines or records.
    pub open spec fn records_among(self, n: nat) -> Seq<int>
        decreases n,
    {
        if n == 0 {
            Seq::empty()
        } else if self.is_record(n - 1) {
            self.records_among((n - 1) as nat).push(n - 1)
        } else {
            self.records_among((n - 1) as nat)
        }
    }

    /// The indices of the records that the file is to give: the first ones, as
    /// many as the header declares or as there are.
    pub open spec fn due(self) -> Seq<int> {
        let all = self.records_among(self.len());
        if all.len() <= self.header.vertex_count {
            all
        } else {
            all.take(self.header.vertex_count as int)
        }
    }

    /// Whether a point is what the record at an index holds.
    pub open spec fn gives(self, i: int, point: Point) -> bool {
        if self.text() {
            fields_point(self.header, self.lines[i].1) == Ok::<
                Point,
                crate::ply::vertex::Axis,
            >(point)
        } else {
            holds_point(self.header, self.records[i], point)
        }
    }

    /// Whether every record can be read.
    pub open spec fn readable(self) -> bool {
        &&& self.text() ==> forall|i: int|
            0 <= i < self.lines.len() && self.is_record(i) ==> {
                let (line, values) = #[trigger] self.lines[i];
                &&& words(trimmed(line)).len() >= self.header.properties.len()
                &&& values.len() == words(trimmed(line)).len()
                &&& fields_point(self.header, values) is Ok
            }
        &&& !self.text() ==> forall|i: int|
            0 <= i < self.records.len() ==> (#[trigger] self.records[i]).len() == stride_of(
                self.header.properties,
            )
    }
}

/// The records that the first `n` files are to give, each as the index of its
/// file and its index there: file after file, in the order of the files.
pub open spec fn all_due(files: Seq<FileView>, n: nat) -> Seq<(int, int)>
    decreases n,
{
    if n == 0 {
        Seq::empty()
    } else {
        all_due(files, (n - 1) as nat) + in_file(n - 1, files[n - 1].due())
    }
}

/// Records of one file.
pub open spec fn in_file(file: int, records: Seq<int>) -> Seq<(int, int)> {
    records.map_values(|i: int| (file, i))
}

/// Whether points are what some records hold, one by one.
pub open spec fn given(files: Seq<FileView>, records: Seq<(int, int)>, points: Seq<Point>) -> bool {
    &&& points.len() == records.len()
    &&& forall|k: int|
        0 <= k < points.len() ==> files[records[k].0].gives(records[k].1, #[trigger] points[k])
}

/// One exchange with the reader: what it was told, how many lines or records of
/// the open file have been read, where it stands then, and what it wants.
pub struct Exchange<'a> {
    pub event: ReadEvent<'a>,
    pub at: nat,
    pub state: ReaderState,
    pub action: ReadAction,
}

/// Whether an event, with the number of lines or records read then, is how the
/// files answer to what the reader wants. A point is followed by the wish for the
/// next.
pub open spec fn answers(files: Seq<FileView>, last: Exchange, event: ReadEvent, at: nat) -> bool {
    let file = files[last.state.next - 1];
    match last.action {
        ReadAction::Open(i) => {
            &&& event matches ReadEvent::Opened(header) && header.wf() && header@
                == files[i as int].header
            &&& at == 0
        },
        ReadAction::ReadLine => if last.at < file.lines.len() {
            &&& event matches ReadEvent::Line(line) && line@ == file.lines[last.at as int].0
            &&& at == last.at + 1
        } else {
            event is EndOfData && at == last.at
        },
        ReadAction::ReadRecord(_) => if last.at < file.records.len() {
            &&& event matches ReadEvent::Record(record) && record@ == file.records[last.at as int]
            &&& at == last.at + 1
        } else {
            event is EndOfData && at == last.at
        },
        ReadAction::ParseFields(_) => {
            &&& event matches ReadEvent::Fields(values) && values@ == file.lines[last.at - 1].1
            &&& at == last.at
        },
        ReadAction::Yield(_) => event is Begin && at == last.at,
        ReadAction::Finished => false,
        ReadAction::Fail(_) => false,
    }
}

/// Whether exchanges are those of a reading of the files from its beginning.
pub open spec fn is_run(files: Seq<FileView>, run: Seq<Exchange>) -> bool {
    &&& run.len() > 0
    &&& run[0].event is Begin
    &&& run[0].at == 0
    &&& responds(
        ReaderState { files: files.len(), next: 0, header: None, read: 0 },
        run[0].event,
        run[0].state,
        run[0].action,
    )
    &&& forall|k: int|
        1 <= k < run.len() ==> answers(files, run[k - 1], (#[trigger] run[k]).event, run[k].at)
            && responds(run[k - 1].state, run[k].event, run[k].state, run[k].action)
}

/// The points that a run gives.
pub open spec fn points_of(run: Seq<Exchange>) -> Seq<Point>
    decreases run.len(),
{
    if run.len() == 0 {
        Seq::empty()
    } else {
        match run.last().action {
            ReadAction::Yield(point) => points_of(run.drop_last()).push(point),
            _ => points_of(run.drop_last()),
        }
    }
}

/// The records that have been given when so many lines or records of the open
/// file have been dealt with.
spec fn records_so_far(files: Seq<FileView>, file: nat, n: nat) -> Seq<(int, int)> {
    all_due(files, file) + in_file(file as int, files[file as int].records_among(n))
}

/// What holds at each exchange of a run.
spec fn sound(files: Seq<FileView>, e: Exchange, points: Seq<Point>) -> bool {
    let s = e.state;
    let c = (s.next - 1) as nat;
    let f = files[c as int];
    &&& s.files == files.len()
    &&& s.next <= files.len()
    &&& match s.header {
        None => match e.action {
            ReadAction::Open(i) => i == c && s.next > 0 && given(files, all_due(files, c), points),
            ReadAction::Finished => s.next == files.len() && given(
                files,
                all_due(files, files.len()),
                points,
            ),
            _ => false,
        },
        Some(h) => {
            &&& s.next > 0
            &&& h == f.header
            &&& e.at <= f.len()
            &&& s.read <= h.vertex_count
            &&& match e.action {
                ReadAction::ReadLine => {
                    &&& reading(s) && f.text()
                    &&& s.read == f.records_among(e.at).len()
                    &&& given(files, records_so_far(files, c, e.at), points)
                },
                ReadAction::ReadRecord(_) => {
                    &&& reading(s) && !f.text()
                    &&& s.read == f.records_among(e.at).len()
                    &&& given(files, records_so_far(files, c, e.at), points)
                },
                ReadAction::ParseFields(_) => {
                    &&& reading(s) && f.text()
                    &&& e.at > 0 && f.is_record(e.at - 1)
                    &&& s.read == f.records_among((e.at - 1) as nat).len()
                    &&& given(files, records_so_far(files, c, (e.at - 1) as nat), points)
                },
                ReadAction::Yield(_) => {
                    &&& s.read == f.records_among(e.at).len()
                    &&& given(files, records_so_far(files, c, e.at), points)
                },
                _ => false,
            }
        },
    }
}

/// The records among fewer lines come first among those of more.
proof fn lemma_records_among(f: FileView, a: nat, b: nat)
    requires
        a <= b,
    ensures
        f.records_among(a).len() <= f.records_among(b).len(),
        f.records_among(b).take(f.records_among(a).len() as int) == f.records_among(a),
    decreases b,
{
    if a == b {
        assert(f.records_among(b).take(f.records_among(a).len() as int) =~= f.records_among(a));
    } else {
        lemma_records_among(f, a, (b - 1) as nat);
        assert(f.records_among(b).take(f.records_among(a).len() as int) =~= f.records_among(
            (b - 1) as nat,
        ).take(f.records_among(a).len() as int));
    }
}

/// A file that has given as many records as it declares, or all it has, has given
/// those that are due.
proof fn lemma_file_done(f: FileView, at: nat)
    requires
        at <= f.len(),
        f.records_among(at).len() <= f.header.vertex_count,
        f.records_among(at).len() == f.header.vertex_count || at == f.len(),
    ensures
        f.due() == f.records_among(at),
{
    lemma_records_among(f, at, f.len());
    if f.records_among(f.len()).len() <= f.header.vertex_count {
        assert(f.records_among(f.len()).take(f.records_among(at).len() as int) =~= f.records_among(
            f.len(),
        ));
    }
}

/// Taking in one record more.
proof fn lemma_one_more(files: Seq<FileView>, file: nat, n: nat, points: Seq<Point>, point: Point)
    requires
        given(files, records_so_far(files, file, n), points),
        files[file as int].is_record(n as int),
        files[file as int].gives(n as int, point),
    ensures
        given(files, records_so_far(files, file, n + 1), points.push(point)),
{
    let more = records_so_far(files, file, n + 1);
    assert(more =~= records_so_far(files, file, n).push((file as int, n as int)));
}

/// Each exchange keeps what holds, and the reader may be told of what the files
/// answer.
proof fn lemma_exchange(files: Seq<FileView>, last: Exchange, e: Exchange, points: Seq<Point>)
    requires
        forall|i: int| 0 <= i < files.len() ==> (#[trigger] files[i]).readable(),
        sound(files, last, points),
        answers(files, last, e.event, e.at),
        responds(last.state, e.event, e.state, e.action),
    ensures
        may_happen(last.state, e.event),
        sound(
            files,
            e,
            match e.action {
                ReadAction::Yield(point) => points.push(point),
                _ => points,
            },
        ),
{
    let s = last.state;
    let c = (s.next - 1) as nat;
    let f = files[c as int];
    assert(f.readable());
    match last.action {
        ReadAction::Open(i) => {
            assert(f.records_among(0).len() == 0);
            assert(records_so_far(files, c, 0) =~= all_due(files, c));
            if 0 >= f.header.vertex_count {
                lemma_file_done(f, 0);
                assert(all_due(files, s.next) =~= records_so_far(files, c, 0));
            }
        },
        ReadAction::ReadLine => {
            if last.at < f.lines.len() {
                let (line, values) = f.lines[last.at as int];
                if !f.is_record(last.at as int) {
                    assert(f.records_among(e.at) == f.records_among(last.at));
                }
            } else {
                lemma_file_done(f, last.at);
                assert(all_due(files, s.next) =~= records_so_far(files, c, last.at));
            }
        },
        ReadAction::ReadRecord(_) => {
            if last.at < f.records.len() {
                assert(f.records[last.at as int].len() == stride_of(f.header.properties));
                if let ReadAction::Yield(point) = e.action {
                    lemma_one_more(files, c, last.at, points, point);
                }
            } else {
                lemma_file_done(f, last.at);
                assert(all_due(files, s.next) =~= records_so_far(files, c, last.at));
            }
        },
        ReadAction::ParseFields(_) => {
            let (line, values) = f.lines[last.at - 1];
            if let ReadAction::Yield(point) = e.action {
                lemma_one_more(files, c, (last.at - 1) as nat, points, point);
            }
        },
        ReadAction::Yield(_) => {
            if s.read >= f.header.vertex_count {
                lemma_file_done(f, last.at);
                assert(all_due(files, s.next) =~= records_so_far(files, c, last.at));
            }
        },
        _ => {},
    }
}

proof fn lemma_run_sound(files: Seq<FileView>, run: Seq<Exchange>)
    requires
        forall|i: int| 0 <= i < files.len() ==> (#[trigger] files[i]).readable(),
        is_run(files, run),
    ensures
        sound(files, run.last(), points_of(run)),
    decreases run.len(),
{
    let less = run.drop_last();
    if run.len() == 1 {
        assert(points_of(less) =~= Seq::<Point>::empty());
        assert(points_of(run) =~= Seq::<Point>::empty());
        assert(given(files, all_due(files, 0), points_of(run)));
    } else {
        assert forall|k: int| 1 <= k < less.len() implies answers(
            files,
            less[k - 1],
            (#[trigger] less[k]).event,
            less[k].at,
        ) && responds(less[k - 1].state, less[k].event, less[k].state, less[k].action) by {
            assert(run[k] == less[k] && run[k - 1] == less[k - 1]);
        }
        lemma_run_sound(files, less);
        let k = run.len() - 1;
        assert(answers(files, run[k - 1], run[k].event, run[k].at));
        lemma_exchange(files, less.last(), run.last(), points_of(less));
    }
}

/// A reading of files whose records can be read meets no failure, and what the
/// files answer is always what the reader may be told.
pub proof fn lemma_run_unhindered(files: Seq<FileView>, run: Seq<Exchange>)
    requires
        forall|i: int| 0 <= i < files.len() ==> (#[trigger] files[i]).readable(),
        is_run(files, run),
    ensures
        !(run.last().action is Fail),
        forall|event: ReadEvent, at: nat| #[trigger]
            answers(files, run.last(), event, at) ==> may_happen(run.last().state, event),
{
    lemma_run_sound(files, run);
    let last = run.last();
    let f = files[last.state.next - 1];
    if last.state.next > 0 {
        assert(f.readable());
    }
    assert forall|event: ReadEvent, at: nat| #[trigger] answers(files, last, event, at) implies may_happen(
        last.state,
        event,
    ) by {
        if last.action is ParseFields {
            let (line, values) = f.lines[last.at - 1];
        }
        if last.action is ReadRecord && last.at < f.records.len() {
            assert(f.records[last.at as int].len() == stride_of(f.header.properties));
        }
    }
}

/// A reading of files whose records can be read that comes to its end has given
/// the first records of every file, as many as its header declares or as there
/// are: file after file, in their order, each once.
pub proof fn lemma_run_gives_all(files: Seq<FileView>, run: Seq<Exchange>)
    requires
        forall|i: int| 0 <= i < files.len() ==> (#[trigger] files[i]).readable(),
        is_run(files, run),
        run.last().action is Finished,
    ensures
        given(files, all_due(files, files.len()), points_of(run)),
{
    lemma_run_sound(files, run);
}

/// A number of exchanges in which the files from `n` on are read to their end.
pub open spec fn exchanges_from(files: Seq<FileView>, n: nat) -> nat
    decreases files.len() - n,
{
    if n >= files.len() {
        0
    } else {
        3 * files[n as int].len() + 3 + exchanges_from(files, n + 1)
    }
}

/// A number of exchanges in which a reading comes to its end.
spec fn exchanges_left(files: Seq<FileView>, e: Exchange) -> int {
    let f = files[e.state.next - 1];
    let behind = exchanges_from(files, e.state.next) as int;
    match e.action {
        ReadAction::Open(_) => behind + 3 * f.len() + 2,
        ReadAction::ReadLine | ReadAction::ReadRecord(_) => behind + 3 * (f.len() - e.at) + 1,
        ReadAction::ParseFields(_) => behind + 3 * (f.len() - e.at) + 3,
        ReadAction::Yield(_) => behind + 3 * (f.len() - e.at) + 2,
        _ => 0,
    }
}

proof fn lemma_run_shortens(files: Seq<FileView>, run: Seq<Exchange>)
    requires
        forall|i: int| 0 <= i < files.len() ==> (#[trigger] files[i]).readable(),
        is_run(files, run),
    ensures
        0 <= exchanges_left(files, run.last()) <= exchanges_from(files, 0) + 1 - run.len(),
    decreases run.len(),
{
    lemma_run_sound(files, run);
    let less = run.drop_last();
    let e = run.last();
    if run.len() > 1 {
        assert forall|k: int| 1 <= k < less.len() implies answers(
            files,
            less[k - 1],
            (#[trigger] less[k]).event,
            less[k].at,
        ) && responds(less[k - 1].state, less[k].event, less[k].state, less[k].action) by {
            assert(run[k] == less[k] && run[k - 1] == less[k - 1]);
        }
        lemma_run_sound(files, less);
        lemma_run_shortens(files, less);
        let k = run.len() - 1;
        assert(answers(files, run[k - 1], run[k].event, run[k].at));
    }
}

/// A reading of files whose records can be read comes to its end: it takes no
/// more exchanges than three for each line or record, three for each file and one.
pub proof fn lemma_run_ends(files: Seq<FileView>, run: Seq<Exchange>)
    requires
        forall|i: int| 0 <= i < files.len() ==> (#[trigger] files[i]).readable(),
        is_run(files, run),
    ensures
        run.len() <= exchanges_from(files, 0) + 1,
{
    lemma_run_shortens(files, run);
}

proof fn lemma_among(f: FileView, n: nat)
    ensures
        forall|k: int|
            0 <= k < f.records_among(n).len() ==> 0 <= #[trigger] f.records_among(n)[k] < n
                && f.is_record(f.records_among(n)[k]),
        forall|j: int, k: int|
            0 <= j < k < f.records_among(n).len() ==> #[trigger] f.records_among(n)[j]
                < #[trigger] f.records_among(n)[k],
        forall|i: int|
            0 <= i < n && #[trigger] f.is_record(i) ==> f.records_among(n).contains(i),
    decreases n,
{
    if n > 0 {
        let m = (n - 1) as nat;
        lemma_among(f, m);
        let less = f.records_among(m);
        let all = f.records_among(n);
        assert forall|i: int| 0 <= i < n && #[trigger] f.is_record(i) implies all.contains(i) by {
            if i < m {
                let k = choose|k: int| 0 <= k < less.len() && less[k] == i;
                assert(all[k] == i);
            } else {
                assert(all[less.len() as int] == i);
            }
        }
    }
}

/// What a file is to give: records of the file in their order, no more of them than
/// its header declares, and all that come before any that it does not give. Every
/// whole record of a binary file is one, and every line of a text file that is not
/// blank.
pub proof fn lemma_due(f: FileView)
    ensures
        f.due().len() <= f.header.vertex_count,
        forall|k: int|
            0 <= k < f.due().len() ==> 0 <= #[trigger] f.due()[k] < f.len() && f.is_record(
                f.due()[k],
            ),
        forall|j: int, k: int|
            0 <= j < k < f.due().len() ==> #[trigger] f.due()[j] < #[trigger] f.due()[k],
        forall|i: int|
            0 <= i < f.len() && #[trigger] f.is_record(i) && !f.due().contains(i) ==> f.due().len()
                == f.header.vertex_count,
        forall|i: int, k: int|
            0 <= i < f.len() && #[trigger] f.is_record(i) && !f.due().contains(i) && 0 <= k
                < f.due().len() ==> #[trigger] f.due()[k] < i,
        forall|i: int|
            0 <= i < f.len() ==> (#[trigger] f.is_record(i) <==> !(f.header.format
                == PlyFormat::Ascii && blank(f.lines[i].0))),
{
    lemma_among(f, f.len());
    let all = f.records_among(f.len());
    let due = f.due();
    assert forall|i: int, k: int|
        0 <= i < f.len() && #[trigger] f.is_record(i) && !due.contains(i) && 0 <= k
            < due.len() implies #[trigger] due[k] < i by {
        let m = choose|m: int| 0 <= m < all.len() && all[m] == i;
        if m < due.len() {
            assert(due[m] == i);
        }
        assert(all[k] < all[m]);
    }
    assert forall|i: int|
        0 <= i < f.len() && #[trigger] f.is_record(i) && !due.contains(i) implies due.len()
        == f.header.vertex_count by {
        assert(all.contains(i));
    }
    assert forall|i: int| 0 <= i < f.len() implies (#[trigger] f.is_record(i) <==> !(f.header.format
        == PlyFormat::Ascii && blank(f.lines[i].0))) by {
        lemma_blank(f.lines[i].0);
    }
}

/// The files are to give their records file after file: those of an earlier file
/// come first, those of one file in their order, and nothing else comes.
pub proof fn lemma_all_due(files: Seq<FileView>, n: nat)
    requires
        n <= files.len(),
    ensures
        forall|j: int, k: int|
            0 <= j < k < all_due(files, n).len() ==> {
                let (a, b) = (#[trigger] all_due(files, n)[j], #[trigger] all_due(files, n)[k]);
                a.0 < b.0 || (a.0 == b.0 && a.1 < b.1)
            },
        forall|file: int, i: int| #[trigger]
            all_due(files, n).contains((file, i)) <==> 0 <= file < n && files[file].due().contains(i),
    decreases n,
{
    let all = all_due(files, n);
    if n == 0 {
    } else {
        let m = (n - 1) as nat;
        lemma_all_due(files, m);
        let less = all_due(files, m);
        let due = files[m as int].due();
        let last = in_file(m as int, due);
        lemma_due(files[m as int]);
        assert(all == less + last);
        assert forall|j: int, k: int| 0 <= j < k < all.len() implies ({
            let (a, b) = (#[trigger] all[j], #[trigger] all[k]);
            a.0 < b.0 || (a.0 == b.0 && a.1 < b.1)
        }) by {
            if j < less.len() {
                assert(all[j] == less[j]);
                assert(less.contains((less[j].0, less[j].1)));
                if k < less.len() {
                    assert(all[k] == less[k]);
                }
            } else {
                assert(all[j].1 == due[j - less.len()] && all[k].1 == due[k - less.len()]);
            }
        }
        assert forall|file: int, i: int| #[trigger] all.contains((file, i)) <==> 0 <= file < n
            && files[file].due().contains(i) by {
            if all.contains((file, i)) {
                let k = choose|k: int| 0 <= k < all.len() && all[k] == (file, i);
                if k < less.len() {
                    assert(less[k] == (file, i));
                    assert(less.contains((file, i)));
                } else {
                    assert(due[k - less.len()] == i);
                }
            }
            if 0 <= file < n && files[file].due().contains(i) {
                if file < m {
                    assert(less.contains((file, i)));
                    let k = choose|k: int| 0 <= k < less.len() && less[k] == (file, i);
                    assert(all[k] == (file, i));
                } else {
                    let k = choose|k: int| 0 <= k < due.len() && due[k] == i;
                    assert(all[less.len() + k] == (file, i));
                }
            }
        }
    }
}

} // verus!
