//! What the disk is doing, at the granularity that matters for cleanup.
use vstd::prelude::*;
use crate::text;

verus! {

/// The container is the number on the box, the data volume the only part that
/// can be walked, and the rest is real but not ours.
#[derive(Debug, Clone, Copy)]
pub struct DiskOverview {
    /// The whole container.
    pub total: u64,
    /// Free in the container.
    pub free: u64,
    /// Used by the data volume.
    pub data_used: u64,
    /// Everything else that shares the container.
    pub other_volumes: u64,
}

/// `a - b`, or nothing where that is less.
pub open spec fn monus(a: int, b: int) -> int {
    if a >= b {
        a - b
    } else {
        0
    }
}

impl DiskOverview {
    /// Used in the container.
    pub fn used(&self) -> (r: u64)
        ensures
            r == monus(self.total as int, self.free as int),
    {
        self.total.saturating_sub(self.free)
    }
}

/// A number of kilobytes in bytes, where that fits.
pub open spec fn kilobytes(s: Seq<char>) -> Option<int> {
    match text::unsigned_value(s, u64::MAX as int) {
        Some(kb) => if kb * 1024 <= u64::MAX {
            Some(kb * 1024)
        } else {
            None
        },
        None => None,
    }
}

/// The total, used and free bytes in a report of `df -k`: the second, third and
/// fourth word of its second line.
pub open spec fn df_figures(report: Seq<char>) -> Option<(int, int, int)> {
    let lines = text::lines(report);
    if lines.len() < 2 {
        None
    } else {
        let words = text::words(lines[1]);
        if words.len() < 4 {
            None
        } else {
            match (kilobytes(words[1]), kilobytes(words[2]), kilobytes(words[3])) {
                (Some(total), Some(used), Some(free)) => Some((total, used, free)),
                _ => None,
            }
        }
    }
}

fn parse_kilobytes(s: &str) -> (r: Option<u64>)
    ensures
        match r {
            Some(n) => kilobytes(s@) == Some(n as int),
            None => kilobytes(s@) is None,
        },
{
    match text::parse_u64(s) {
        Some(kb) => if kb <= u64::MAX / 1024 {
            Some(kb * 1024)
        } else {
            None
        },
        None => None,
    }
}

/// Reads a report of `df -k`.
pub fn statfs(report: &str) -> (r: Option<(u64, u64, u64)>)
    ensures
        match r {
            Some((a, b, c)) => df_figures(report@) == Some((a as int, b as int, c as int)),
            None => df_figures(report@) is None,
        },
{
    let lines = text::split_lines(report);
    assert(lines@.len() == text::lines(report@).len());
    if lines.len() < 2 {
        return None;
    }
    assert(lines@[1]@ == text::lines(report@)[1]);
    let words = text::split_words(&lines[1]);
    let ghost w = text::words(lines@[1]@);
    assert(words@.len() == w.len());
    if words.len() < 4 {
        return None;
    }
    assert(words@[1]@ == w[1] && words@[2]@ == w[2] && words@[3]@ == w[3]);
    match (parse_kilobytes(&words[1]), parse_kilobytes(&words[2]), parse_kilobytes(&words[3])) {
        (Some(total), Some(used), Some(free)) => Some((total, used, free)),
        _ => None,
    }
}

/// The integer behind a key of an XML property list. It has to be the tag right
/// after its key, so a key that turns up as a string value cannot hijack the
/// lookup.
pub open spec fn plist_value(plist: Seq<char>, key: Seq<char>) -> Option<int> {
    match text::cut_text(plist, "<key>"@ + key + "</key>"@) {
        None => None,
        Some((_, after)) => match text::behind(text::trimmed_start(after), "<integer>"@) {
            None => None,
            Some(value) => match text::cut_text(value, "</integer>"@) {
                None => None,
                Some((number, _)) => text::unsigned_value(
                    text::trimmed(number),
                    u64::MAX as int,
                ),
            },
        },
    }
}

/// Reads one integer out of an XML property list.
pub fn plist_u64(plist: &str, key: &str) -> (r: Option<u64>)
    ensures
        match r {
            Some(n) => plist_value(plist@, key@) == Some(n as int),
            None => plist_value(plist@, key@) is None,
        },
{
    let mut needle: String = "<key>".to_owned();
    needle.append(key);
    needle.append("</key>");
    match text::split_text(plist, &needle) {
        None => None,
        Some((_, after)) => {
            let rest = text::trim_start(&after);
            match text::strip_prefix(&rest, "<integer>") {
                None => None,
                Some(value) => match text::split_text(&value, "</integer>") {
                    None => None,
                    Some((number, _)) => {
                        let bare = text::trim(&number);
                        text::parse_u64(&bare)
                    },
                },
            }
        },
    }
}

/// The overview that the two reports come to. The figures of the container are
/// taken from the property list where it has them.
pub open spec fn overview_of(df: Seq<char>, plist: Option<Seq<char>>) -> Option<(int, int, int, int)> {
    match df_figures(df) {
        None => None,
        Some((df_total, data_used, df_free)) => {
            let listed_total = match plist {
                Some(p) => plist_value(p, "APFSContainerSize"@),
                None => None,
            };
            let listed_free = match plist {
                Some(p) => plist_value(p, "APFSContainerFree"@),
                None => None,
            };
            let total = match listed_total {
                Some(t) => t,
                None => df_total,
            };
            let free = match listed_free {
                Some(f) => f,
                None => df_free,
            };
            Some((total, free, data_used, monus(monus(total, free), data_used)))
        },
    }
}

/// What the disk is doing, from the report of `df -k` and, where there is one,
/// the property list of `diskutil`.
pub fn disk_overview(df: &str, plist: &Option<String>) -> (r: Option<DiskOverview>)
    ensures
        match r {
            Some(o) => overview_of(df@, text::text_opt(*plist)) == Some(
                (o.total as int, o.free as int, o.data_used as int, o.other_volumes as int),
            ),
            None => overview_of(df@, text::text_opt(*plist)) is None,
        },
{
    match statfs(df) {
        None => None,
        Some((df_total, data_used, df_free)) => {
            let listed_total: Option<u64> = match plist {
                Some(p) => plist_u64(p, "APFSContainerSize"),
                None => None,
            };
            let listed_free: Option<u64> = match plist {
                Some(p) => plist_u64(p, "APFSContainerFree"),
                None => None,
            };
            let total: u64 = match listed_total {
                Some(t) => t,
                None => df_total,
            };
            let free: u64 = match listed_free {
                Some(f) => f,
                None => df_free,
            };
            Some(
                DiskOverview {
                    total,
                    free,
                    data_used,
                    other_volumes: total.saturating_sub(free).saturating_sub(data_used),
                },
            )
        },
    }
}

/// The path whose volume is measured.
pub fn df_path(has_data_volume: bool) -> (r: String)
    ensures
        r@ == (if has_data_volume {
            "/System/Volumes/Data"@
        } else {
            "/"@
        }),
{
    if has_data_volume {
        "/System/Volumes/Data".to_owned()
    } else {
        "/".to_owned()
    }
}

/// The parts of the container add up to no more than it holds: where the data
/// volume fits in what is used, what is used is the data volume and the others.
pub proof fn law_the_container_adds_up(o: DiskOverview)
    requires
        o.other_volumes == monus(monus(o.total as int, o.free as int), o.data_used as int),
        o.free <= o.total,
        o.data_used <= o.total - o.free,
    ensures
        o.free + o.data_used + o.other_volumes == o.total,
{
}

/// The second, third and fourth word of the second line of `df -k` are the total, used and free
/// kilobytes of 1024 bytes, whatever stands around them; figures that do not fit are none.
pub proof fn law_the_figures_of_df_are_read(
    head: Seq<char>,
    line: Seq<char>,
    rest: Seq<char>,
    total: nat,
    used: nat,
    free: nat,
)
    requires
        !head.contains('\n'),
        !line.contains('\n'),
        line.len() > 0,
        line.last() != '\r',
        text::words(line).len() >= 4,
        text::words(line)[1] == text::decimal(total),
        text::words(line)[2] == text::decimal(used),
        text::words(line)[3] == text::decimal(free),
    ensures
        df_figures(head.push('\n') + (line.push('\n') + rest)) == (if total * 1024 <= u64::MAX
            && used * 1024 <= u64::MAX && free * 1024 <= u64::MAX {
            Some((total * 1024int, used * 1024int, free * 1024int))
        } else {
            None
        }),
{
    let behind = line.push('\n') + rest;
    text::law_a_text_is_read_line_by_line(head, behind);
    text::law_a_text_is_read_line_by_line(line, rest);
    assert(text::lines(head.push('\n') + behind)[1] == line);
    text::law_a_written_number_reads_back(total, u64::MAX as int);
    text::law_a_written_number_reads_back(used, u64::MAX as int);
    text::law_a_written_number_reads_back(free, u64::MAX as int);
}

/// The integer right behind the first mention of its key is read out of a property list, white
/// space around the tag and the number aside.
pub proof fn law_the_integer_behind_a_key_is_read(
    before: Seq<char>,
    key: Seq<char>,
    space: Seq<char>,
    number: Seq<char>,
    n: nat,
    after: Seq<char>,
)
    requires
        forall|i: int| 0 <= i < space.len() ==> text::is_space(#[trigger] space[i]),
        text::trimmed(number) == text::decimal(n),
        !number.contains('<'),
        ({
            let mention = "<key>"@ + key + "</key>"@;
            let plist = before + mention + (space + ("<integer>"@ + (number + "</integer>"@
                + after)));
            forall|j: int|
                0 <= j < before.len() && j + mention.len() <= plist.len()
                    ==> #[trigger] plist.subrange(j, j + mention.len()) != mention
        }),
    ensures
        plist_value(
            before + ("<key>"@ + key + "</key>"@) + (space + ("<integer>"@ + (number
                + "</integer>"@ + after))),
            key,
        ) == (if n <= u64::MAX {
            Some(n as int)
        } else {
            None
        }),
{
    let mention = "<key>"@ + key + "</key>"@;
    let value = number + "</integer>"@ + after;
    let tagged = "<integer>"@ + value;
    let rest = space + tagged;
    let plist = before + mention + rest;
    reveal_strlit("<key>");
    reveal_strlit("</key>");
    reveal_strlit("<integer>");
    reveal_strlit("</integer>");
    lemma_cut(plist, mention, before, rest);
    assert(tagged[0] == '<');
    text::law_space_in_front_is_dropped(space, tagged);
    assert("<integer>"@.is_prefix_of(tagged)) by {
        assert(tagged.take("<integer>"@.len() as int) =~= "<integer>"@);
    }
    assert(tagged.skip("<integer>"@.len() as int) =~= value);
    let close = "</integer>"@;
    assert forall|j: int| 0 <= j < number.len() && j + close.len() <= value.len() implies
        #[trigger] value.subrange(j, j + close.len()) != close by {
        assert(value.subrange(j, j + close.len())[0] == number[j]);
        assert(number.contains(number[j]));
        assert(close[0] == '<');
    }
    lemma_cut(value, close, number, after);
    text::law_a_written_number_reads_back(n, u64::MAX as int);
}

/// A key with anything but white space and the tag of an integer behind it has none.
pub proof fn law_a_key_without_an_integer_has_none(
    before: Seq<char>,
    key: Seq<char>,
    space: Seq<char>,
    other: Seq<char>,
)
    requires
        forall|i: int| 0 <= i < space.len() ==> text::is_space(#[trigger] space[i]),
        other.len() > 0,
        !text::is_space(other[0]),
        !"<integer>"@.is_prefix_of(other),
        ({
            let mention = "<key>"@ + key + "</key>"@;
            let plist = before + mention + (space + other);
            forall|j: int|
                0 <= j < before.len() && j + mention.len() <= plist.len()
                    ==> #[trigger] plist.subrange(j, j + mention.len()) != mention
        }),
    ensures
        plist_value(before + ("<key>"@ + key + "</key>"@) + (space + other), key) is None,
{
    let mention = "<key>"@ + key + "</key>"@;
    reveal_strlit("<key>");
    lemma_cut(before + mention + (space + other), mention, before, space + other);
    text::law_space_in_front_is_dropped(space, other);
}

proof fn lemma_cut(s: Seq<char>, needle: Seq<char>, before: Seq<char>, after: Seq<char>)
    requires
        s == before + needle + after,
        needle.len() > 0,
        forall|j: int|
            0 <= j < before.len() && j + needle.len() <= s.len() ==> #[trigger] s.subrange(
                j,
                j + needle.len(),
            ) != needle,
    ensures
        text::cut_text(s, needle) == Some((before, after)),
{
    text::law_a_text_is_cut_where_another_first_stands(s, needle);
    let k = before.len() as int;
    assert(s.subrange(k, k + needle.len()) =~= needle);
    let (a, b) = text::cut_text(s, needle)->0;
    assert(s.subrange(a.len() as int, a.len() as int + needle.len()) =~= needle) by {
        assert(s == a + needle + b);
    }
    assert(a.len() == before.len());
    assert(a =~= s.take(k));
    assert(before =~= s.take(k));
    assert(b =~= s.skip(k + needle.len()));
    assert(after =~= s.skip(k + needle.len()));
}

/// The property list says how large the container is and how much of it is free, each where it
/// can; `df` says what the data volume uses, and the rest where the list does not. What is used
/// beyond the data volume is the other volumes'.
pub proof fn law_the_property_list_goes_before_df(
    df: Seq<char>,
    plist: Option<Seq<char>>,
    figures: (int, int, int),
)
    requires
        df_figures(df) == Some(figures),
    ensures
        overview_of(df, plist) matches Some((total, free, data_used, other_volumes)) && {
            &&& data_used == figures.1
            &&& match plist {
                Some(p) => {
                    &&& match plist_value(p, "APFSContainerSize"@) {
                        Some(t) => total == t,
                        None => total == figures.0,
                    }
                    &&& match plist_value(p, "APFSContainerFree"@) {
                        Some(f) => free == f,
                        None => free == figures.2,
                    }
                },
                None => total == figures.0 && free == figures.2,
            }
            &&& total >= free && total - free >= data_used >= 0 ==> free + data_used
                + other_volumes == total
            &&& total < free + data_used && data_used >= 0 ==> other_volumes == 0
        },
{
}

} // verus!
