//! Person records: parsing from comma-separated lines, rendering back to
//! them, labeled printing, and exact-match search.

use vstd::prelude::*;
use vstd::string::{StrSliceExecFns, StringExecFns};
use crate::date::{date_text, spec_parse_date, Date};
use crate::errors::Errors;
use crate::date::valid_u32_text;
use crate::text::{canonical_digits, dec_digits, dec_value, join_char, lemma_dec_digits_of_dec_value,
    lemma_split_join, lemma_splitn_join, parse_u32, split_char, splitn_char, splitn_str,
    trim_end_of, trim_end_spec, u32_to_string};

verus! {

/// One person record. The birth date has been validated at construction;
/// the text fields are free-form, except that only the note may contain the
/// comma separator (the line format has no escaping).
#[derive(Debug)]
pub struct Profile {
    pub id: u32,
    pub name: String,
    pub birth: Date,
    pub addr: String,
    pub note: String,
}

/// The mathematical image of a record: text fields as character sequences.
pub struct ProfileV {
    pub id: u32,
    pub name: Seq<char>,
    pub birth: Date,
    pub addr: Seq<char>,
    pub note: Seq<char>,
}

impl View for Profile {
    type V = ProfileV;

    open spec fn view(&self) -> ProfileV {
        ProfileV {
            id: self.id,
            name: self.name@,
            birth: self.birth,
            addr: self.addr@,
            note: self.note@,
        }
    }
}

impl DeepView for Profile {
    type V = ProfileV;

    open spec fn deep_view(&self) -> ProfileV {
        self.view()
    }
}

/// A parse result, with the record replaced by its image.
pub open spec fn result_view(r: Result<Profile, Errors>) -> Result<ProfileV, Errors> {
    match r {
        Ok(p) => Ok(p@),
        Err(e) => Err(e),
    }
}

/// What building a record from its five fields yields: the birth text must
/// parse as a date; its errors propagate.
pub open spec fn spec_new_profile(
    id: u32,
    name: Seq<char>,
    birth: Seq<char>,
    addr: Seq<char>,
    note: Seq<char>,
) -> Result<ProfileV, Errors> {
    match spec_parse_date(birth) {
        Ok(b) => Ok(ProfileV { id, name, birth: b, addr, note }),
        Err(e) => Err(e),
    }
}

/// What parsing one comma-separated line yields: after trimming trailing
/// whitespace, the line must split into exactly five fields (the note keeps
/// any further commas), the id must be a number, and the birth field must be
/// a valid date.
pub open spec fn spec_parse_profile(line: Seq<char>) -> Result<ProfileV, Errors> {
    let parts = splitn_char(trim_end_spec(line), ',', 5);
    if parts.len() != 5 {
        Err(Errors::InvalidFormat)
    } else if !valid_u32_text(parts[0]) {
        Err(Errors::Parse)
    } else {
        spec_new_profile(
            dec_value(parts[0]) as u32,
            parts[1],
            parts[2],
            parts[3],
            parts[4],
        )
    }
}

/// The comma-separated rendering of a record: id, name, canonical birth
/// text, address and note, joined with commas.
pub open spec fn csv_text(p: ProfileV) -> Seq<char> {
    dec_digits(p.id as nat) + seq![','] + p.name + seq![','] + date_text(p.birth) + seq![',']
        + p.addr + seq![','] + p.note
}

/// Exact-match search: the needle must equal the id's decimal text, the
/// name, the birth's canonical text, the address or the note — whole-field,
/// case-sensitive, no substrings.
pub open spec fn spec_matches(p: ProfileV, w: Seq<char>) -> bool {
    ||| w == dec_digits(p.id as nat)
    ||| w == p.name
    ||| w == date_text(p.birth)
    ||| w == p.addr
    ||| w == p.note
}

/// The labeled lines that printing one record produces, ending with a blank
/// line.
pub open spec fn render_lines_spec(p: ProfileV) -> Seq<Seq<char>> {
    seq![
        "Id:    "@ + dec_digits(p.id as nat),
        "Name:  "@ + p.name,
        "Birth: "@ + date_text(p.birth),
        "Addr:  "@ + p.addr,
        "Note:  "@ + p.note,
        Seq::<char>::empty(),
    ]
}

/// A record line in canonical form: five comma-separated fields whose id and
/// whose three date numbers carry no leading zeros.
pub open spec fn canonical_line(line: Seq<char>) -> bool {
    let parts = splitn_char(line, ',', 5);
    &&& parts.len() == 5
    &&& canonical_digits(parts[0])
    &&& {
        let d = split_char(parts[2], '-');
        &&& d.len() == 3
        &&& canonical_digits(d[0])
        &&& canonical_digits(d[1])
        &&& canonical_digits(d[2])
    }
}

/// Round trip: a line that parses, has no trailing whitespace, and writes
/// its numbers canonically is reproduced exactly by rendering the parsed
/// record back to comma-separated text.
pub proof fn lemma_parse_csv_round_trip(line: Seq<char>)
    requires
        trim_end_spec(line) == line,
        canonical_line(line),
        spec_parse_profile(line) is Ok,
    ensures
        csv_text(spec_parse_profile(line)->Ok_0) == line,
{
    let parts = splitn_char(line, ',', 5);
    let p = spec_parse_profile(line)->Ok_0;
    let d = split_char(parts[2], '-');
    let dr = spec_parse_date(parts[2]);
    assert(dr is Ok);
    let b = dr->Ok_0;

    // each canonical number field is reproduced by rendering its value
    lemma_dec_digits_of_dec_value(parts[0]);
    lemma_dec_digits_of_dec_value(d[0]);
    lemma_dec_digits_of_dec_value(d[1]);
    lemma_dec_digits_of_dec_value(d[2]);
    assert(p.id as nat == dec_value(parts[0]));
    assert(dec_digits(p.id as nat) == parts[0]);
    assert(b.y as nat == dec_value(d[0]) && b.m as nat == dec_value(d[1]) && b.d as nat
        == dec_value(d[2]));

    // the date field is reproduced: its three parts joined with dashes
    assert(crate::date::date_text(b) == join_char(d, '-')) by {
        let tail = d.drop_first();
        let tail2 = tail.drop_first();
        assert(tail.len() == 2 && tail2.len() == 1);
        assert(tail[0] == d[1] && tail2[0] == d[2]);
        assert(join_char(tail2, '-') == d[2]);
        assert(join_char(tail, '-') == d[1] + seq!['-'] + d[2]);
        assert(join_char(d, '-') == d[0] + seq!['-'] + (d[1] + seq!['-'] + d[2]));
        assert(crate::date::date_text(b) =~= d[0] + seq!['-'] + (d[1] + seq!['-'] + d[2]));
    }
    lemma_split_join(parts[2], '-');
    assert(crate::date::date_text(b) == parts[2]);

    // the whole line is reproduced: its five fields joined with commas
    assert(csv_text(p) == join_char(parts, ',')) by {
        let t1 = parts.drop_first();
        let t2 = t1.drop_first();
        let t3 = t2.drop_first();
        let t4 = t3.drop_first();
        assert(t1.len() == 4 && t2.len() == 3 && t3.len() == 2 && t4.len() == 1);
        assert(t1[0] == parts[1] && t2[0] == parts[2] && t3[0] == parts[3] && t4[0]
            == parts[4]);
        assert(join_char(t4, ',') == parts[4]);
        assert(join_char(t3, ',') == parts[3] + seq![','] + parts[4]);
        assert(join_char(t2, ',') == parts[2] + seq![','] + (parts[3] + seq![','] + parts[4]));
        assert(join_char(t1, ',') == parts[1] + seq![','] + (parts[2] + seq![','] + (parts[3]
            + seq![','] + parts[4])));
        assert(join_char(parts, ',') == parts[0] + seq![','] + (parts[1] + seq![','] + (parts[2]
            + seq![','] + (parts[3] + seq![','] + parts[4]))));
        assert(csv_text(p) =~= parts[0] + seq![','] + (parts[1] + seq![','] + (parts[2]
            + seq![','] + (parts[3] + seq![','] + parts[4]))));
    }
    lemma_splitn_join(line, ',', 5);
}

impl Profile {
    /// Builds a record from its five fields, parsing and validating the
    /// birth text.
    pub fn new(i: u32, na: String, b: String, a: String, no: String) -> (r: Result<
        Profile,
        Errors,
    >)
        ensures
            result_view(r) == spec_new_profile(i, na@, b@, a@, no@),
    {
        match Date::parse_date(b) {
            Ok(birth) => Ok(Profile { id: i, name: na, birth, addr: a, note: no }),
            Err(e) => Err(e),
        }
    }

    /// Parses one comma-separated line as [`spec_parse_profile`] says.
    pub fn parse_item(line: &String) -> (r: Result<Profile, Errors>)
        ensures
            result_view(r) == spec_parse_profile(line@),
    {
        let t = trim_end_of(line.as_str());
        let parts = splitn_str(t, ',', 5);
        if parts.len() != 5 {
            return Err(Errors::InvalidFormat);
        }
        proof {
            assert(parts.deep_view().len() == 5);
            assert(parts.deep_view()[0] == parts@[0]@);
            assert(parts.deep_view()[1] == parts@[1]@);
            assert(parts.deep_view()[2] == parts@[2]@);
            assert(parts.deep_view()[3] == parts@[3]@);
            assert(parts.deep_view()[4] == parts@[4]@);
        }
        let id: u32 = match parse_u32(parts[0].as_str()) {
            Some(v) => v,
            None => {
                return Err(Errors::Parse);
            },
        };
        let name = parts[1].clone();
        let birth = parts[2].clone();
        let addr = parts[3].clone();
        let note = parts[4].clone();
        Profile::new(id, name, birth, addr, note)
    }

    /// Renders the record as one comma-separated line, [`csv_text`].
    pub fn form_csv(&self) -> (r: String)
        ensures
            r@ == csv_text(self@),
    {
        proof {
            reveal_strlit(",");
        }
        let mut r = u32_to_string(self.id);
        r.append(",");
        r.append(self.name.as_str());
        r.append(",");
        let bs = self.birth.form_string();
        r.append(bs.as_str());
        r.append(",");
        r.append(self.addr.as_str());
        r.append(",");
        r.append(self.note.as_str());
        proof {
            assert(","@ =~= seq![',']);
            assert(r@ =~= csv_text(self@));
        }
        r
    }

    /// Whole-field exact match against any of the five fields,
    /// [`spec_matches`].
    pub fn find_profile(&self, word: &String) -> (r: bool)
        ensures
            r == spec_matches(self@, word@),
    {
        let ids = u32_to_string(self.id);
        if ids.eq(word) {
            return true;
        }
        if self.name.eq(word) {
            return true;
        }
        let bs = self.birth.form_string();
        if bs.eq(word) {
            return true;
        }
        if self.addr.eq(word) {
            return true;
        }
        self.note.eq(word)
    }

    /// The labeled lines that printing this record produces,
    /// [`render_lines_spec`].
    pub fn render_lines(&self) -> (r: Vec<String>)
        ensures
            r.deep_view() == render_lines_spec(self@),
    {
        let mut out: Vec<String> = Vec::new();
        let mut l0 = "Id:    ".to_owned();
        let ids = u32_to_string(self.id);
        l0.append(ids.as_str());
        out.push(l0);
        let mut l1 = "Name:  ".to_owned();
        l1.append(self.name.as_str());
        out.push(l1);
        let mut l2 = "Birth: ".to_owned();
        let bs = self.birth.form_string();
        l2.append(bs.as_str());
        out.push(l2);
        let mut l3 = "Addr:  ".to_owned();
        l3.append(self.addr.as_str());
        out.push(l3);
        let mut l4 = "Note:  ".to_owned();
        l4.append(self.note.as_str());
        out.push(l4);
        out.push(String::new());
        proof {
            assert(out.deep_view() =~~= render_lines_spec(self@));
        }
        out
    }
}

} // verus!
