use vstd::prelude::*;

use crate::text::{
    char_is_alnum, char_lower, dec_str, is_alnum_of, lower_char_of, push_char, str_eq, str_trim,
    trimmed, u64_string, usize_string,
};

verus! {

// ---------------------------------------------------------------------------
// HTML escaping
// ---------------------------------------------------------------------------

pub open spec fn escaped_char(c: char) -> Seq<char> {
    if c == '&' {
        seq!['&', 'a', 'm', 'p', ';']
    } else if c == '<' {
        seq!['&', 'l', 't', ';']
    } else if c == '>' {
        seq!['&', 'g', 't', ';']
    } else {
        seq![c]
    }
}

/// The text with `&`, `<` and `>` replaced by their HTML entities.
pub open spec fn html_escaped(s: Seq<char>) -> Seq<char>
    decreases s.len(),
{
    if s.len() == 0 {
        Seq::empty()
    } else {
        escaped_char(s[0]) + html_escaped(s.drop_first())
    }
}

/// Relies on html_escape::encode_text: replaces every `&`, `<` and `>` by
/// `&amp;`, `&lt;` and `&gt;` and leaves all other characters unchanged.
#[verifier::external_body]
fn encode_str(s: &str) -> (r: String)
    ensures
        r@ == html_escaped(s@),
{
    html_escape::encode_text(s).to_string()
}

pub fn encode(s: &String) -> (r: String)
    ensures
        r@ == html_escaped(s@),
{
    encode_str(s.as_str())
}

// ---------------------------------------------------------------------------
// Questions
// ---------------------------------------------------------------------------

pub struct Question {
    pub cost: u16,
    pub question: String,
    pub answers: Vec<String>,
    pub comment: Option<String>,
}

pub ghost struct QuestionView {
    pub cost: int,
    pub question: Seq<char>,
    pub answers: Seq<Seq<char>>,
    pub comment: Option<Seq<char>>,
}

impl View for Question {
    type V = QuestionView;

    open spec fn view(&self) -> QuestionView {
        QuestionView {
            cost: self.cost as int,
            question: self.question@,
            answers: self.answers.deep_view(),
            comment: match self.comment {
                Some(c) => Some(c@),
                None => None,
            },
        }
    }
}

impl DeepView for Question {
    type V = QuestionView;

    open spec fn deep_view(&self) -> QuestionView {
        self.view()
    }
}

// ---------------------------------------------------------------------------
// Answer normalization
// ---------------------------------------------------------------------------

pub open spec fn is_open_bracket(c: char) -> bool {
    c == '(' || c == '[' || c == '{'
}

pub open spec fn is_close_bracket(c: char) -> bool {
    c == ')' || c == ']' || c == '}'
}

/// How one kept character contributes: the letters `ё`/`Ё` become `е`, any
/// other character becomes its lowercase form.
pub open spec fn norm_char(c: char) -> Seq<char> {
    if c == 'ё' || c == 'Ё' {
        seq!['е']
    } else {
        lower_char_of(c)
    }
}

/// The normal form of the suffix of `s` starting at `i`, with `level` open
/// brackets: brackets adjust the level, and an alphanumeric character is kept
/// unless `skip` is set and it stands inside brackets.
pub open spec fn norm_from(s: Seq<char>, skip: bool, level: int, i: int) -> Seq<char>
    decreases s.len() - i,
{
    if i < 0 || i >= s.len() {
        Seq::empty()
    } else {
        let c = s[i];
        if is_open_bracket(c) {
            norm_from(s, skip, level + 1, i + 1)
        } else if is_close_bracket(c) {
            norm_from(s, skip, level - 1, i + 1)
        } else if (level == 0 || !skip) && is_alnum_of(c) {
            norm_char(c) + norm_from(s, skip, level, i + 1)
        } else {
            norm_from(s, skip, level, i + 1)
        }
    }
}

/// The comparison key of an answer: lowercased alphanumeric characters, with
/// `ё` folded to `е`; when `skip` is set, bracketed content is dropped.
pub open spec fn normalized(s: Seq<char>, skip: bool) -> Seq<char> {
    norm_from(s, skip, 0, 0)
}

/// Whether a given answer counts as the expected one: either side may keep or
/// drop its bracketed content.
pub open spec fn answer_matches(answer: Seq<char>, expected: Seq<char>) -> bool {
    let a = trimmed(answer);
    ||| normalized(a, false) == normalized(expected, false)
    ||| normalized(a, false) == normalized(expected, true)
    ||| normalized(a, true) == normalized(expected, false)
    ||| normalized(a, true) == normalized(expected, true)
}

impl Question {
    pub fn new(cost: u16, question: String, answers: &[String], comment: Option<String>) -> (r:
        Question)
        ensures
            r@.cost == cost as int,
            r@.question == html_escaped(question@),
            r@.answers.len() == answers@.len(),
            forall|i: int|
                0 <= i < answers@.len() ==> r@.answers[i] == html_escaped(answers@[i]@),
            r@.comment == match comment {
                Some(c) => Some(html_escaped(c@)),
                None => None::<Seq<char>>,
            },
    {
        let mut encoded: Vec<String> = Vec::new();
        let mut i: usize = 0;
        while i < answers.len()
            invariant
                i <= answers@.len(),
                encoded@.len() == i,
                forall|j: int|
                    0 <= j < i ==> encoded@[j]@ == html_escaped(answers@[j]@),
            decreases answers@.len() - i,
        {
            encoded.push(encode(&answers[i]));
            i += 1;
        }
        let c = match comment {
            Some(c) => Some(encode(&c)),
            None => None,
        };
        Question { cost, question: encode(&question), answers: encoded, comment: c }
    }

    pub fn check_answer(&self, answer: &str) -> (r: bool)
        ensures
            r == exists|k: int|
                0 <= k < self@.answers.len() && answer_matches(answer@, self@.answers[k]),
    {
        let a = str_trim(answer);
        let answer_no_par = no_space(a.as_str(), false);
        let answer_par = no_space(a.as_str(), true);
        let mut k: usize = 0;
        while k < self.answers.len()
            invariant
                k <= self@.answers.len(),
                self@.answers.len() == self.answers@.len(),
                forall|j: int| 0 <= j < self.answers@.len() ==> self@.answers[j] == self.answers@[j]@,
                answer_no_par@ == normalized(trimmed(answer@), false),
                answer_par@ == normalized(trimmed(answer@), true),
                forall|j: int| 0 <= j < k ==> !answer_matches(answer@, self@.answers[j]),
            decreases self.answers@.len() - k,
        {
            let expected = &self.answers[k];
            let expected_no_par = no_space(expected.as_str(), false);
            let expected_par = no_space(expected.as_str(), true);
            if str_eq(answer_no_par.as_str(), expected_no_par.as_str()) || str_eq(
                answer_no_par.as_str(),
                expected_par.as_str(),
            ) || str_eq(answer_par.as_str(), expected_no_par.as_str()) || str_eq(
                answer_par.as_str(),
                expected_par.as_str(),
            ) {
                proof {
                    assert(answer_matches(answer@, self@.answers[k as int]));
                    assert(exists|j: int|
                        0 <= j < self@.answers.len() && answer_matches(
                            answer@,
                            self@.answers[j],
                        ));
                }
                return true;
            }
            k += 1;
        }
        false
    }

    pub fn display_question(&self, topic_name: &str) -> (r: String)
        ensures
            r@ == ("<b>Тема</b> ")@ + topic_name@ + ("\n<b>")@ + dec_str(self@.cost) + (
            ".</b> ")@ + self@.question,
    {
        let mut r = String::from_str("<b>Тема</b> ");
        r.append(topic_name);
        r.append("\n<b>");
        let cost = u64_string(self.cost as u64);
        r.append(cost.as_str());
        r.append(".</b> ");
        r.append(self.question.as_str());
        r
    }

    /// Re-encodes every field; kept for packages whose stored text predates
    /// the escaping done at construction.
    pub fn fix(&self) -> (r: Question)
        ensures
            r@.cost == self@.cost,
            r@.question == html_escaped(self@.question),
            r@.answers.len() == self@.answers.len(),
            forall|i: int|
                0 <= i < self@.answers.len() ==> r@.answers[i] == html_escaped(self@.answers[i]),
            r@.comment == match self@.comment {
                Some(c) => Some(html_escaped(c)),
                None => None::<Seq<char>>,
            },
    {
        let mut answers: Vec<String> = Vec::new();
        let mut i: usize = 0;
        while i < self.answers.len()
            invariant
                i <= self.answers@.len(),
                answers@.len() == i,
                forall|j: int| 0 <= j < self.answers@.len() ==> self@.answers[j] == self.answers@[j]@,
                forall|j: int| 0 <= j < i ==> answers@[j]@ == self.answers@[j]@,
            decreases self.answers@.len() - i,
        {
            answers.push(self.answers[i].clone());
            i += 1;
        }
        let comment = match &self.comment {
            Some(c) => Some(c.clone()),
            None => None,
        };
        Question::new(self.cost, self.question.clone(), answers.as_slice(), comment)
    }

    pub fn display_answers(&self, after_right_answer: bool) -> (r: String)
        ensures
            r@ == spec_display_answers(self@, after_right_answer),
    {
        let mut res = String::from_str(
            if after_right_answer {
                "<b>Авторский ответ</b>: "
            } else {
                "<b>Ответ:</b> "
            },
        );
        let ghost header = res@;
        let mut first = true;
        let mut i: usize = 0;
        while i < self.answers.len()
            invariant
                i <= self.answers@.len(),
                self@.answers.len() == self.answers@.len(),
                forall|j: int| 0 <= j < self.answers@.len() ==> self@.answers[j] == self.answers@[j]@,
                first == (i == 0),
                res@ == header + answers_list(self@.answers, i as int),
            decreases self.answers@.len() - i,
        {
            if first {
                first = false;
            } else {
                res.append("\n<b>Зачет</b>: ");
            }
            res.append(self.answers[i].as_str());
            i += 1;
        }
        if let Some(comment) = &self.comment {
            res.append("\n<b>Комментарий</b>: ");
            res.append(comment.as_str());
        }
        res
    }
}

/// The accepted answers joined by the acceptance separator, first one bare.
pub open spec fn answers_list(answers: Seq<Seq<char>>, i: int) -> Seq<char>
    decreases i,
{
    if i <= 0 {
        Seq::empty()
    } else if i == 1 {
        answers[0]
    } else {
        answers_list(answers, i - 1) + ("\n<b>Зачет</b>: ")@ + answers[i - 1]
    }
}

pub open spec fn spec_display_answers(q: QuestionView, after_right_answer: bool) -> Seq<char> {
    (if after_right_answer {
        ("<b>Авторский ответ</b>: ")@
    } else {
        ("<b>Ответ:</b> ")@
    }) + answers_list(q.answers, q.answers.len() as int) + (match q.comment {
        Some(c) => ("\n<b>Комментарий</b>: ")@ + c,
        None => Seq::empty(),
    })
}

/// The executable counterpart of `normalized`.
pub fn no_space(answer: &str, skip_parenthesis: bool) -> (r: String)
    ensures
        r@ == normalized(answer@, skip_parenthesis),
{
    let n = answer.unicode_len();
    let mut res = String::new();
    let mut level: i128 = 0;
    let mut i: usize = 0;
    while i < n
        invariant
            n == answer@.len(),
            i <= n,
            -(i as int) <= level as int <= i as int,
            normalized(answer@, skip_parenthesis) == res@ + norm_from(
                answer@,
                skip_parenthesis,
                level as int,
                i as int,
            ),
        decreases n - i,
    {
        let c = answer.get_char(i);
        if c == '(' || c == '[' || c == '{' {
            level = level + 1;
        } else if c == ')' || c == ']' || c == '}' {
            level = level - 1;
        } else if (level == 0 || !skip_parenthesis) && char_is_alnum(c) {
            if c == 'ё' || c == 'Ё' {
                push_char(&mut res, 'е');
                proof {
                    assert(res@ =~= (res@.drop_last() + norm_char(c)));
                }
            } else {
                let low = char_lower(c);
                let ghost res0 = res@;
                let mut k: usize = 0;
                while k < low.len()
                    invariant
                        low@ == lower_char_of(c),
                        k <= low.len(),
                        res@ == res0 + low@.subrange(0, k as int),
                    decreases low.len() - k,
                {
                    push_char(&mut res, low[k]);
                    proof {
                        assert(res0 + low@.subrange(0, k as int) + seq![low@[k as int]] =~= res0
                            + low@.subrange(0, k + 1));
                        assert((res0 + low@.subrange(0, k as int)).push(low@[k as int]) =~= res0
                            + low@.subrange(0, k as int) + seq![low@[k as int]]);
                    }
                    k += 1;
                }
                proof {
                    assert(low@.subrange(0, low@.len() as int) =~= low@);
                    assert(res@ =~= res0 + norm_char(c));
                }
            }
        }
        proof {
            let s = answer@;
            let sk = skip_parenthesis;
            assert(s[i as int] == c);
            if is_open_bracket(c) || is_close_bracket(c) {
            } else if (level as int == 0 || !sk) && is_alnum_of(c) {
                assert(res@ + norm_from(s, sk, level as int, i + 1) =~= res@.subrange(
                    0,
                    res@.len() - norm_char(c).len(),
                ) + (norm_char(c) + norm_from(s, sk, level as int, i + 1)));
            }
        }
        i += 1;
    }
    res
}

// ---------------------------------------------------------------------------
// Topics and packages
// ---------------------------------------------------------------------------

pub struct Topic {
    pub name: String,
    pub questions: Vec<Question>,
}

pub ghost struct TopicView {
    pub name: Seq<char>,
    pub questions: Seq<QuestionView>,
}

impl View for Topic {
    type V = TopicView;

    open spec fn view(&self) -> TopicView {
        TopicView { name: self.name@, questions: self.questions.deep_view() }
    }
}

impl DeepView for Topic {
    type V = TopicView;

    open spec fn deep_view(&self) -> TopicView {
        self.view()
    }
}

/// The Russian counting word for a number of topics.
pub open spec fn topic_word_suffix(n: int) -> Seq<char> {
    if n % 10 == 0 || n % 10 >= 5 || (n % 100 >= 10 && n % 100 < 20) {
        (" тем")@
    } else if n % 10 == 1 {
        (" тема")@
    } else {
        (" темы")@
    }
}

impl Topic {
    pub fn new(name: String, questions: Vec<Question>) -> (r: Topic)
        ensures
            r@.name == html_escaped(name@),
            r@.questions == questions.deep_view(),
    {
        Topic { name: encode(&name), questions }
    }

    pub fn topic_word(topics: usize) -> (r: String)
        ensures
            r@ == dec_str(topics as int) + topic_word_suffix(topics as int),
    {
        let number = usize_string(topics);
        let mut r = number;
        if topics % 10 == 0 || topics % 10 >= 5 || topics % 100 >= 10 && topics % 100 < 20 {
            r.append(" тем");
        } else if topics % 10 == 1 {
            r.append(" тема");
        } else {
            r.append(" темы");
        }
        r
    }
}

pub struct TopicSet {
    pub id: String,
    pub title: String,
    pub description: String,
    pub topics: Vec<Topic>,
}

pub ghost struct TopicSetView {
    pub id: Seq<char>,
    pub title: Seq<char>,
    pub description: Seq<char>,
    pub topics: Seq<TopicView>,
}

impl View for TopicSet {
    type V = TopicSetView;

    open spec fn view(&self) -> TopicSetView {
        TopicSetView {
            id: self.id@,
            title: self.title@,
            description: self.description@,
            topics: self.topics.deep_view(),
        }
    }
}

impl DeepView for TopicSet {
    type V = TopicSetView;

    open spec fn deep_view(&self) -> TopicSetView {
        self.view()
    }
}

impl TopicSet {
    pub fn new(id: String, title: String, description: String, topics: Vec<Topic>) -> (r: TopicSet)
        ensures
            r@.id == id@,
            r@.title == html_escaped(title@),
            r@.description == html_escaped(description@),
            r@.topics == topics.deep_view(),
    {
        TopicSet { id, title: encode(&title), description: encode(&description), topics }
    }
}


fn clone_string_vec(v: &Vec<String>) -> (res: Vec<String>)
    ensures
        res.deep_view() == v.deep_view(),
{
    let n = v.len();
    let mut r: Vec<String> = Vec::new();
    let mut i: usize = 0;
    while i < n
        invariant
            n == v@.len(),
            i <= n,
            r@.len() == i,
            forall|j: int| 0 <= j < i ==> r@[j]@ == v@[j]@,
        decreases n - i,
    {
        r.push(v[i].clone());
        i += 1;
    }
    proof {
        assert(r.deep_view() =~= v.deep_view());
    }
    r
}

impl Clone for Question {
    fn clone(&self) -> (res: Question)
        ensures
            res@ == self@,
    {
        let comment = match &self.comment {
            Some(c) => Some(c.clone()),
            None => None,
        };
        let res = Question {
            cost: self.cost,
            question: self.question.clone(),
            answers: clone_string_vec(&self.answers),
            comment,
        };
        res
    }
}

impl Clone for Topic {
    fn clone(&self) -> (res: Topic)
        ensures
            res@ == self@,
    {
        let n = self.questions.len();
        let mut qs: Vec<Question> = Vec::new();
        let mut i: usize = 0;
        while i < n
            invariant
                n == self.questions@.len(),
                i <= n,
                qs@.len() == i,
                forall|j: int| 0 <= j < i ==> qs@[j]@ == self.questions@[j]@,
            decreases n - i,
        {
            qs.push(self.questions[i].clone());
            i += 1;
        }
        proof {
            assert(qs.deep_view() =~= self.questions.deep_view());
        }
        Topic { name: self.name.clone(), questions: qs }
    }
}

impl Clone for TopicSet {
    fn clone(&self) -> (res: TopicSet)
        ensures
            res@ == self@,
    {
        let n = self.topics.len();
        let mut ts: Vec<Topic> = Vec::new();
        let mut i: usize = 0;
        while i < n
            invariant
                n == self.topics@.len(),
                i <= n,
                ts@.len() == i,
                forall|j: int| 0 <= j < i ==> ts@[j]@ == self.topics@[j]@,
            decreases n - i,
        {
            ts.push(self.topics[i].clone());
            i += 1;
        }
        proof {
            assert(ts.deep_view() =~= self.topics.deep_view());
        }
        TopicSet {
            id: self.id.clone(),
            title: self.title.clone(),
            description: self.description.clone(),
            topics: ts,
        }
    }
}
} // verus!
