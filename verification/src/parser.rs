use vstd::prelude::*;

use crate::topic::{Question, Topic, TopicSet};

verus! {

/// Index of the first CRLF at or after `i`, or the length when none is left.
pub open spec fn first_crlf(s: Seq<char>, i: int) -> int
    decreases s.len() - i,
{
    if i < 0 || i + 1 >= s.len() {
        s.len() as int
    } else if s[i] == '\r' && s[i + 1] == '\n' {
        i
    } else {
        first_crlf(s, i + 1)
    }
}

/// The lines of the text, split on CRLF.
pub open spec fn spec_split_crlf(s: Seq<char>) -> Seq<Seq<char>>
    decreases s.len(),
{
    let i = first_crlf(s, 0);
    if 0 <= i && i + 1 < s.len() {
        seq![s.subrange(0, i)] + spec_split_crlf(s.subrange(i + 2, s.len() as int))
    } else {
        seq![s]
    }
}

/// Splits package text into lines on CRLF separators.
pub fn split_crlf(s: &str) -> (r: Vec<String>)
    ensures
        r@.len() == spec_split_crlf(s@).len(),
        forall|i: int| 0 <= i < r@.len() ==> r@[i]@ == spec_split_crlf(s@)[i],
    decreases s@.len(),
{
    let n = s.unicode_len();
    let mut i: usize = 0;
    let mut found: Option<usize> = None;
    while n >= 1 && i < n - 1
        invariant_except_break
            (found is None),
        invariant
            n == s@.len(),
            i <= n,
            first_crlf(s@, 0) == first_crlf(s@, i as int),
        ensures
            (match found {
                Some(c) => first_crlf(s@, 0) == c && c + 1 < n,
                None => first_crlf(s@, 0) == s@.len(),
            }),
        decreases n - i,
    {
        if s.get_char(i) == '\r' && s.get_char(i + 1) == '\n' {
            found = Some(i);
            proof {
                assert(first_crlf(s@, i as int) == i as int);
            }
            break ;
        }
        i += 1;
    }
    match found {
        Some(cut) => {
            let head = s.substring_char(0, cut);
            let tail = s.substring_char(cut + 2, n);
            let rest = split_crlf(tail);
            let mut r: Vec<String> = Vec::new();
            r.push(String::from_str(head));
            let m = rest.len();
            let mut k: usize = 0;
            while k < m
                invariant
                    m == rest@.len(),
                    k <= m,
                    rest@.len() == spec_split_crlf(tail@).len(),
                    forall|j: int| 0 <= j < m ==> rest@[j]@ == spec_split_crlf(tail@)[j],
                    r@.len() == 1 + k,
                    r@[0]@ == s@.subrange(0, cut as int),
                    forall|j: int| 1 <= j < r@.len() ==> r@[j]@ == spec_split_crlf(tail@)[j - 1],
                decreases m - k,
            {
                r.push(rest[k].clone());
                k += 1;
            }
            r
        },
        None => {
            let mut r: Vec<String> = Vec::new();
            r.push(String::from_str(s));
            r
        },
    }
}

/// The iterator over blank-line-separated paragraphs of the package text.
pub struct LineCollection {
    pub lines: Vec<String>,
    pub pos: usize,
}

impl LineCollection {
    pub open spec fn inv(&self) -> bool {
        self.pos <= self.lines@.len()
    }

    pub fn new(lines: Vec<String>) -> (r: LineCollection)
        ensures
            r.inv(),
            r.lines == lines,
            r.pos == 0,
    {
        LineCollection { lines, pos: 0 }
    }

    /// The next paragraph: the non-empty lines up to a blank line or the
    /// end; exhausted input yields nothing.
    pub fn next(&mut self) -> (res: Option<Vec<String>>)
        requires
            old(self).inv(),
        ensures
            final(self).inv(),
            final(self).lines == old(self).lines,
            old(self).pos == old(self).lines@.len() <==> res is None,
            res is None ==> final(self).pos == old(self).pos,
            match res {
                Some(part) => {
                    &&& old(self).pos < final(self).pos <= old(self).lines@.len()
                    &&& part@.len() <= final(self).pos - old(self).pos
                    &&& (forall|j: int|
                        0 <= j < part@.len() ==> (#[trigger] part@[j])@ == old(self).lines@[old(
                            self,
                        ).pos + j]@)
                },
                None => true,
            },
    {
        if self.pos == self.lines.len() {
            None
        } else {
            let ghost start = self.pos;
            let mut res: Vec<String> = Vec::new();
            while self.pos < self.lines.len() && self.lines[self.pos].as_str().unicode_len() > 0
                invariant
                    self.inv(),
                    self.lines == old(self).lines,
                    start <= self.pos,
                    res@.len() == self.pos - start,
                    forall|j: int|
                        0 <= j < res@.len() ==> (#[trigger] res@[j])@ == self.lines@[start + j]@,
                decreases self.lines@.len() - self.pos,
            {
                res.push(self.lines[self.pos].clone());
                self.pos = self.pos + 1;
            }
            if self.pos != self.lines.len() {
                self.pos = self.pos + 1;
            }
            Some(res)
        }
    }
}

/// Index of the first empty line at or after `i`, or the length when none
/// is left.
pub open spec fn first_blank(lines: Seq<Seq<char>>, i: int) -> int
    decreases lines.len() - i,
{
    if i < 0 || i >= lines.len() {
        lines.len() as int
    } else if lines[i].len() == 0 {
        i
    } else {
        first_blank(lines, i + 1)
    }
}

/// Collects the text between a line starting with `from` and the next line
/// starting with `to`, dropping the consumed prefix from the paragraph.
pub fn get_part(lines: &mut Vec<String>, from: &str, to: &str) -> (res: Option<String>)
    ensures
        (res is Some) == exists|i: int|
            0 <= i < old(lines)@.len() && starts_with_spec(#[trigger] old(lines)@[i]@, from@),
        res is None ==> *final(lines) == *old(lines),
{
    let mut result = String::new();
    let mut on = false;
    let n = lines.len();
    let mut i: usize = 0;
    let mut cut: Option<usize> = None;
    while i < n && cut.is_none()
        invariant
            n == lines@.len(),
            i <= n,
            on ==> exists|w: int|
                0 <= w < i && starts_with_spec(#[trigger] lines@[w]@, from@),
            !on ==> forall|w: int| 0 <= w < i ==> !starts_with_spec(#[trigger] lines@[w]@, from@),
            match cut {
                Some(c) => on && c < i && c < n,
                None => true,
            },
        decreases n - i,
    {
        let line = &lines[i];
        if on {
            if crate::text::str_starts_with(line.as_str(), to) {
                cut = Some(i);
            } else {
                result.append("\n");
                result.append(line.as_str());
            }
        } else {
            if crate::text::str_starts_with(line.as_str(), from) {
                on = true;
                let fl = from.unicode_len();
                let ll = line.as_str().unicode_len();
                let tail = line.as_str().substring_char(fl, ll);
                result.append(tail);
            }
        }
        i += 1;
    }
    match cut {
        Some(c) => {
            let m = lines.len();
            let mut rest: Vec<String> = Vec::new();
            let mut k: usize = c;
            while k < m
                invariant
                    m == lines@.len(),
                    c <= k <= m,
                decreases m - k,
            {
                rest.push(lines[k].clone());
                k += 1;
            }
            *lines = rest;
            proof {
                assert(exists|w: int|
                    0 <= w < old(lines)@.len() && starts_with_spec(
                        #[trigger] old(lines)@[w]@,
                        from@,
                    ));
            }
            Some(result)
        },
        None => {
            if on {
                Some(result)
            } else {
                proof {
                    assert forall|w: int|
                        0 <= w < lines@.len() implies !starts_with_spec(
                        #[trigger] lines@[w]@,
                        from@,
                    ) by {}
                }
                None
            }
        },
    }
}

/// Whether `s` begins with `p`.
pub open spec fn starts_with_spec(s: Seq<char>, p: Seq<char>) -> bool {
    p.len() <= s.len() && s.subrange(0, p.len() as int) == p
}

/// A topic of the pretty format is sound when it carries exactly five
/// questions priced 10 to 50, each with one accepted answer.
pub open spec fn topic_sound(t: crate::topic::TopicView) -> bool {
    &&& t.questions.len() == 5
    &&& (forall|q: int|
        0 <= q < 5 ==> (#[trigger] t.questions[q]).cost == (q + 1) * 10)
    &&& (forall|q: int| 0 <= q < 5 ==> (#[trigger] t.questions[q]).answers.len() == 1)
    &&& (forall|q: int| 0 <= q < 5 ==> (#[trigger] t.questions[q]).comment is None)
}

/// Reads the pretty text format: a title paragraph, a description paragraph,
/// then one paragraph per topic; a malformed topic paragraph is skipped, and
/// a package without a single sound topic is refused.
pub fn parse_pretty(id: String, content: String) -> (res: Option<TopicSet>)
    ensures
        match res {
            Some(set) => {
                &&& set@.id == id@
                &&& set@.topics.len() >= 1
                &&& (forall|t: int| 0 <= t < set@.topics.len() ==> topic_sound(#[trigger] set@.topics[t]))
            },
            None => true,
        },
{
    let lines = split_crlf(content.as_str());
    let mut lc = LineCollection::new(lines);
    if lc.next().is_none() {
        return None;
    }
    let title = match lc.next() {
        Some(title) => join_lines(&title),
        None => {
            return None;
        },
    };
    let description = match lc.next() {
        Some(description) => join_lines(&description),
        None => {
            return None;
        },
    };
    let mut topics: Vec<Topic> = Vec::new();
    loop
        invariant
            lc.inv(),
            forall|t: int| 0 <= t < topics@.len() ==> topic_sound(#[trigger] topics@[t]@),
        decreases lc.lines@.len() - lc.pos,
    {
        let mut topic = match lc.next() {
            None => {
                break ;
            },
            Some(t) => t,
        };
        let topic_title = match get_part(&mut topic, "Тема ", "10. ") {
            None => {
                continue ;
            },
            Some(title) => title,
        };
        let mut questions: Vec<Question> = Vec::new();
        let mut good = true;
        let mut i: usize = 1;
        while i <= 5
            invariant
                1 <= i <= 6,
                good ==> questions@.len() == i - 1,
                good ==> forall|q: int|
                    0 <= q < questions@.len() ==> (#[trigger] questions@[q]@).cost == (q + 1) * 10
                        && questions@[q]@.answers.len() == 1 && questions@[q]@.comment is None,
            decreases 6 - i,
        {
            if !good {
                break ;
            }
            let from1 = cost_prefix(i);
            let to1 = cost_prefix(i + 1);
            let question = match get_part(&mut topic, from1.as_str(), "Ответ: ") {
                None => {
                    good = false;
                    break ;
                },
                Some(question) => question,
            };
            let answer = match get_part(&mut topic, "Ответ: ", to1.as_str()) {
                None => {
                    good = false;
                    break ;
                },
                Some(answer) => answer,
            };
            let mut answers: Vec<String> = Vec::new();
            answers.push(answer);
            let q = Question::new((i as u16) * 10, question, answers.as_slice(), None);
            questions.push(q);
            i += 1;
        }
        if good && questions.len() == 5 {
            let t = Topic::new(topic_title, questions);
            proof {
                assert(topic_sound(t@));
            }
            topics.push(t);
        }
    }
    if topics.len() == 0 {
        None
    } else {
        let set = TopicSet::new(id, title, description, topics);
        Some(set)
    }
}

/// "10. ", "20. ", ... the question headers of the pretty format.
fn cost_prefix(i: usize) -> (r: String)
    requires
        1 <= i <= 6,
{
    let mut r = crate::text::usize_string(i * 10);
    r.append(". ");
    r
}

/// The paragraph's lines joined back with newlines.
fn join_lines(lines: &Vec<String>) -> (r: String)
{
    let mut r = String::new();
    let n = lines.len();
    let mut i: usize = 0;
    while i < n
        invariant
            n == lines@.len(),
        decreases n - i,
    {
        if i > 0 {
            r.append("\n");
        }
        r.append(lines[i].as_str());
        i += 1;
    }
    r
}


/// Whether a file name carries the JSON package extension.
pub open spec fn is_json_name(s: Seq<char>) -> bool {
    s.len() >= 5 && s.subrange(s.len() - 5, s.len() as int) == (".json")@
}

/// The package id a file name denotes: a JSON document drops the extension,
/// any other name is cut at its first dot.
pub fn package_file_id(name: &str) -> (r: (bool, String))
    ensures
        r.0 == is_json_name(name@),
        r.0 ==> r.1@ == name@.subrange(0, name@.len() - 5),
        !r.0 ==> r.1@ == name@.subrange(0, r.1@.len() as int) && (forall|j: int|
            0 <= j < r.1@.len() ==> name@[j] != '.') && (r.1@.len() == name@.len() || name@[r.1@.len() as int] == '.'),
{
    let n = name.unicode_len();
    let json = if n >= 5 {
        let ext = name.substring_char(n - 5, n);
        proof {
            reveal_strlit(".json");
        }
        crate::text::str_eq(ext, ".json")
    } else {
        proof {
            reveal_strlit(".json");
        }
        false
    };
    if json {
        let stem = name.substring_char(0, n - 5);
        (true, String::from_str(stem))
    } else {
        match crate::text::str_find_char(name, '.') {
            Some(d) => {
                let stem = name.substring_char(0, d);
                (false, String::from_str(stem))
            },
            None => (false, String::from_str(name)),
        }
    }
}
} // verus!
