//! The textual tags of the fixed job set.

use vstd::prelude::*;
use crate::types::Job;

verus! {

/// The job named by a tag, if the tag is one of the fixed set.
pub open spec fn job_of_tag(s: Seq<char>) -> Option<Job> {
    if s == "PLD"@ {
        Some(Job::PLD)
    } else if s == "WAR"@ {
        Some(Job::WAR)
    } else if s == "DRK"@ {
        Some(Job::DRK)
    } else if s == "GNB"@ {
        Some(Job::GNB)
    } else if s == "WHM"@ {
        Some(Job::WHM)
    } else if s == "AST"@ {
        Some(Job::AST)
    } else if s == "SCH"@ {
        Some(Job::SCH)
    } else if s == "SGE"@ {
        Some(Job::SGE)
    } else if s == "MNK"@ {
        Some(Job::MNK)
    } else if s == "DRG"@ {
        Some(Job::DRG)
    } else if s == "NIN"@ {
        Some(Job::NIN)
    } else if s == "SAM"@ {
        Some(Job::SAM)
    } else if s == "RPR"@ {
        Some(Job::RPR)
    } else if s == "BRD"@ {
        Some(Job::BRD)
    } else if s == "MCH"@ {
        Some(Job::MCH)
    } else if s == "DNC"@ {
        Some(Job::DNC)
    } else if s == "BLM"@ {
        Some(Job::BLM)
    } else if s == "RDM"@ {
        Some(Job::RDM)
    } else if s == "SMN"@ {
        Some(Job::SMN)
    } else if s == "BLU"@ {
        Some(Job::BLU)
    } else if s == "LB"@ {
        Some(Job::LB)
    } else if s == "PCT"@ {
        Some(Job::PCT)
    } else if s == "VPR"@ {
        Some(Job::VPR)
    } else {
        None
    }
}

/// Parse a job tag against the fixed set.
pub fn job_from_tag(s: &String) -> (r: Option<Job>)
    ensures
        r == job_of_tag(s@),
{
    if *s == "PLD".to_owned() {
        Some(Job::PLD)
    } else if *s == "WAR".to_owned() {
        Some(Job::WAR)
    } else if *s == "DRK".to_owned() {
        Some(Job::DRK)
    } else if *s == "GNB".to_owned() {
        Some(Job::GNB)
    } else if *s == "WHM".to_owned() {
        Some(Job::WHM)
    } else if *s == "AST".to_owned() {
        Some(Job::AST)
    } else if *s == "SCH".to_owned() {
        Some(Job::SCH)
    } else if *s == "SGE".to_owned() {
        Some(Job::SGE)
    } else if *s == "MNK".to_owned() {
        Some(Job::MNK)
    } else if *s == "DRG".to_owned() {
        Some(Job::DRG)
    } else if *s == "NIN".to_owned() {
        Some(Job::NIN)
    } else if *s == "SAM".to_owned() {
        Some(Job::SAM)
    } else if *s == "RPR".to_owned() {
        Some(Job::RPR)
    } else if *s == "BRD".to_owned() {
        Some(Job::BRD)
    } else if *s == "MCH".to_owned() {
        Some(Job::MCH)
    } else if *s == "DNC".to_owned() {
        Some(Job::DNC)
    } else if *s == "BLM".to_owned() {
        Some(Job::BLM)
    } else if *s == "RDM".to_owned() {
        Some(Job::RDM)
    } else if *s == "SMN".to_owned() {
        Some(Job::SMN)
    } else if *s == "BLU".to_owned() {
        Some(Job::BLU)
    } else if *s == "LB".to_owned() {
        Some(Job::LB)
    } else if *s == "PCT".to_owned() {
        Some(Job::PCT)
    } else if *s == "VPR".to_owned() {
        Some(Job::VPR)
    } else {
        None
    }
}

/// The tag of a job; parsing it back yields the job.
#[verifier::rlimit(100)]
pub fn job_tag(j: Job) -> (r: String)
    ensures
        job_of_tag(r@) == Some(j),
{
    proof {
        broadcast use vstd::string::group_string_axioms;

        reveal_strlit("PLD");
        reveal_strlit("WAR");
        reveal_strlit("DRK");
        reveal_strlit("GNB");
        reveal_strlit("WHM");
        reveal_strlit("AST");
        reveal_strlit("SCH");
        reveal_strlit("SGE");
        reveal_strlit("MNK");
        reveal_strlit("DRG");
        reveal_strlit("NIN");
        reveal_strlit("SAM");
        reveal_strlit("RPR");
        reveal_strlit("BRD");
        reveal_strlit("MCH");
        reveal_strlit("DNC");
        reveal_strlit("BLM");
        reveal_strlit("RDM");
        reveal_strlit("SMN");
        reveal_strlit("BLU");
        reveal_strlit("LB");
        reveal_strlit("PCT");
        reveal_strlit("VPR");
        assert(("WAR"@) != ("PLD"@)) by { assert(("WAR"@)[0] != ("PLD"@)[0]); }
        assert(("DRK"@) != ("PLD"@)) by { assert(("DRK"@)[0] != ("PLD"@)[0]); }
        assert(("DRK"@) != ("WAR"@)) by { assert(("DRK"@)[0] != ("WAR"@)[0]); }
        assert(("GNB"@) != ("PLD"@)) by { assert(("GNB"@)[0] != ("PLD"@)[0]); }
        assert(("GNB"@) != ("WAR"@)) by { assert(("GNB"@)[0] != ("WAR"@)[0]); }
        assert(("GNB"@) != ("DRK"@)) by { assert(("GNB"@)[0] != ("DRK"@)[0]); }
        assert(("WHM"@) != ("PLD"@)) by { assert(("WHM"@)[0] != ("PLD"@)[0]); }
        assert(("WHM"@) != ("WAR"@)) by { assert(("WHM"@)[1] != ("WAR"@)[1]); }
        assert(("WHM"@) != ("DRK"@)) by { assert(("WHM"@)[0] != ("DRK"@)[0]); }
        assert(("WHM"@) != ("GNB"@)) by { assert(("WHM"@)[0] != ("GNB"@)[0]); }
        assert(("AST"@) != ("PLD"@)) by { assert(("AST"@)[0] != ("PLD"@)[0]); }
        assert(("AST"@) != ("WAR"@)) by { assert(("AST"@)[0] != ("WAR"@)[0]); }
        assert(("AST"@) != ("DRK"@)) by { assert(("AST"@)[0] != ("DRK"@)[0]); }
        assert(("AST"@) != ("GNB"@)) by { assert(("AST"@)[0] != ("GNB"@)[0]); }
        assert(("AST"@) != ("WHM"@)) by { assert(("AST"@)[0] != ("WHM"@)[0]); }
        assert(("SCH"@) != ("PLD"@)) by { assert(("SCH"@)[0] != ("PLD"@)[0]); }
        assert(("SCH"@) != ("WAR"@)) by { assert(("SCH"@)[0] != ("WAR"@)[0]); }
        assert(("SCH"@) != ("DRK"@)) by { assert(("SCH"@)[0] != ("DRK"@)[0]); }
        assert(("SCH"@) != ("GNB"@)) by { assert(("SCH"@)[0] != ("GNB"@)[0]); }
        assert(("SCH"@) != ("WHM"@)) by { assert(("SCH"@)[0] != ("WHM"@)[0]); }
        assert(("SCH"@) != ("AST"@)) by { assert(("SCH"@)[0] != ("AST"@)[0]); }
        assert(("SGE"@) != ("PLD"@)) by { assert(("SGE"@)[0] != ("PLD"@)[0]); }
        assert(("SGE"@) != ("WAR"@)) by { assert(("SGE"@)[0] != ("WAR"@)[0]); }
        assert(("SGE"@) != ("DRK"@)) by { assert(("SGE"@)[0] != ("DRK"@)[0]); }
        assert(("SGE"@) != ("GNB"@)) by { assert(("SGE"@)[0] != ("GNB"@)[0]); }
        assert(("SGE"@) != ("WHM"@)) by { assert(("SGE"@)[0] != ("WHM"@)[0]); }
        assert(("SGE"@) != ("AST"@)) by { assert(("SGE"@)[0] != ("AST"@)[0]); }
        assert(("SGE"@) != ("SCH"@)) by { assert(("SGE"@)[1] != ("SCH"@)[1]); }
        assert(("MNK"@) != ("PLD"@)) by { assert(("MNK"@)[0] != ("PLD"@)[0]); }
        assert(("MNK"@) != ("WAR"@)) by { assert(("MNK"@)[0] != ("WAR"@)[0]); }
        assert(("MNK"@) != ("DRK"@)) by { assert(("MNK"@)[0] != ("DRK"@)[0]); }
        assert(("MNK"@) != ("GNB"@)) by { assert(("MNK"@)[0] != ("GNB"@)[0]); }
        assert(("MNK"@) != ("WHM"@)) by { assert(("MNK"@)[0] != ("WHM"@)[0]); }
        assert(("MNK"@) != ("AST"@)) by { assert(("MNK"@)[0] != ("AST"@)[0]); }
        assert(("MNK"@) != ("SCH"@)) by { assert(("MNK"@)[0] != ("SCH"@)[0]); }
        assert(("MNK"@) != ("SGE"@)) by { assert(("MNK"@)[0] != ("SGE"@)[0]); }
        assert(("DRG"@) != ("PLD"@)) by { assert(("DRG"@)[0] != ("PLD"@)[0]); }
        assert(("DRG"@) != ("WAR"@)) by { assert(("DRG"@)[0] != ("WAR"@)[0]); }
        assert(("DRG"@) != ("DRK"@)) by { assert(("DRG"@)[2] != ("DRK"@)[2]); }
        assert(("DRG"@) != ("GNB"@)) by { assert(("DRG"@)[0] != ("GNB"@)[0]); }
        assert(("DRG"@) != ("WHM"@)) by { assert(("DRG"@)[0] != ("WHM"@)[0]); }
        assert(("DRG"@) != ("AST"@)) by { assert(("DRG"@)[0] != ("AST"@)[0]); }
        assert(("DRG"@) != ("SCH"@)) by { assert(("DRG"@)[0] != ("SCH"@)[0]); }
        assert(("DRG"@) != ("SGE"@)) by { assert(("DRG"@)[0] != ("SGE"@)[0]); }
        assert(("DRG"@) != ("MNK"@)) by { assert(("DRG"@)[0] != ("MNK"@)[0]); }
        assert(("NIN"@) != ("PLD"@)) by { assert(("NIN"@)[0] != ("PLD"@)[0]); }
        assert(("NIN"@) != ("WAR"@)) by { assert(("NIN"@)[0] != ("WAR"@)[0]); }
        assert(("NIN"@) != ("DRK"@)) by { assert(("NIN"@)[0] != ("DRK"@)[0]); }
        assert(("NIN"@) != ("GNB"@)) by { assert(("NIN"@)[0] != ("GNB"@)[0]); }
        assert(("NIN"@) != ("WHM"@)) by { assert(("NIN"@)[0] != ("WHM"@)[0]); }
        assert(("NIN"@) != ("AST"@)) by { assert(("NIN"@)[0] != ("AST"@)[0]); }
        assert(("NIN"@) != ("SCH"@)) by { assert(("NIN"@)[0] != ("SCH"@)[0]); }
        assert(("NIN"@) != ("SGE"@)) by { assert(("NIN"@)[0] != ("SGE"@)[0]); }
        assert(("NIN"@) != ("MNK"@)) by { assert(("NIN"@)[0] != ("MNK"@)[0]); }
        assert(("NIN"@) != ("DRG"@)) by { assert(("NIN"@)[0] != ("DRG"@)[0]); }
        assert(("SAM"@) != ("PLD"@)) by { assert(("SAM"@)[0] != ("PLD"@)[0]); }
        assert(("SAM"@) != ("WAR"@)) by { assert(("SAM"@)[0] != ("WAR"@)[0]); }
        assert(("SAM"@) != ("DRK"@)) by { assert(("SAM"@)[0] != ("DRK"@)[0]); }
        assert(("SAM"@) != ("GNB"@)) by { assert(("SAM"@)[0] != ("GNB"@)[0]); }
        assert(("SAM"@) != ("WHM"@)) by { assert(("SAM"@)[0] != ("WHM"@)[0]); }
        assert(("SAM"@) != ("AST"@)) by { assert(("SAM"@)[0] != ("AST"@)[0]); }
        assert(("SAM"@) != ("SCH"@)) by { assert(("SAM"@)[1] != ("SCH"@)[1]); }
        assert(("SAM"@) != ("SGE"@)) by { assert(("SAM"@)[1] != ("SGE"@)[1]); }
        assert(("SAM"@) != ("MNK"@)) by { assert(("SAM"@)[0] != ("MNK"@)[0]); }
        assert(("SAM"@) != ("DRG"@)) by { assert(("SAM"@)[0] != ("DRG"@)[0]); }
        assert(("SAM"@) != ("NIN"@)) by { assert(("SAM"@)[0] != ("NIN"@)[0]); }
        assert(("RPR"@) != ("PLD"@)) by { assert(("RPR"@)[0] != ("PLD"@)[0]); }
        assert(("RPR"@) != ("WAR"@)) by { assert(("RPR"@)[0] != ("WAR"@)[0]); }
        assert(("RPR"@) != ("DRK"@)) by { assert(("RPR"@)[0] != ("DRK"@)[0]); }
        assert(("RPR"@) != ("GNB"@)) by { assert(("RPR"@)[0] != ("GNB"@)[0]); }
        assert(("RPR"@) != ("WHM"@)) by { assert(("RPR"@)[0] != ("WHM"@)[0]); }
        assert(("RPR"@) != ("AST"@)) by { assert(("RPR"@)[0] != ("AST"@)[0]); }
        assert(("RPR"@) != ("SCH"@)) by { assert(("RPR"@)[0] != ("SCH"@)[0]); }
        assert(("RPR"@) != ("SGE"@)) by { assert(("RPR"@)[0] != ("SGE"@)[0]); }
        assert(("RPR"@) != ("MNK"@)) by { assert(("RPR"@)[0] != ("MNK"@)[0]); }
        assert(("RPR"@) != ("DRG"@)) by { assert(("RPR"@)[0] != ("DRG"@)[0]); }
        assert(("RPR"@) != ("NIN"@)) by { assert(("RPR"@)[0] != ("NIN"@)[0]); }
        assert(("RPR"@) != ("SAM"@)) by { assert(("RPR"@)[0] != ("SAM"@)[0]); }
        assert(("BRD"@) != ("PLD"@)) by { assert(("BRD"@)[0] != ("PLD"@)[0]); }
        assert(("BRD"@) != ("WAR"@)) by { assert(("BRD"@)[0] != ("WAR"@)[0]); }
        assert(("BRD"@) != ("DRK"@)) by { assert(("BRD"@)[0] != ("DRK"@)[0]); }
        assert(("BRD"@) != ("GNB"@)) by { assert(("BRD"@)[0] != ("GNB"@)[0]); }
        assert(("BRD"@) != ("WHM"@)) by { assert(("BRD"@)[0] != ("WHM"@)[0]); }
        assert(("BRD"@) != ("AST"@)) by { assert(("BRD"@)[0] != ("AST"@)[0]); }
        assert(("BRD"@) != ("SCH"@)) by { assert(("BRD"@)[0] != ("SCH"@)[0]); }
        assert(("BRD"@) != ("SGE"@)) by { assert(("BRD"@)[0] != ("SGE"@)[0]); }
        assert(("BRD"@) != ("MNK"@)) by { assert(("BRD"@)[0] != ("MNK"@)[0]); }
        assert(("BRD"@) != ("DRG"@)) by { assert(("BRD"@)[0] != ("DRG"@)[0]); }
        assert(("BRD"@) != ("NIN"@)) by { assert(("BRD"@)[0] != ("NIN"@)[0]); }
        assert(("BRD"@) != ("SAM"@)) by { assert(("BRD"@)[0] != ("SAM"@)[0]); }
        assert(("BRD"@) != ("RPR"@)) by { assert(("BRD"@)[0] != ("RPR"@)[0]); }
        assert(("MCH"@) != ("PLD"@)) by { assert(("MCH"@)[0] != ("PLD"@)[0]); }
        assert(("MCH"@) != ("WAR"@)) by { assert(("MCH"@)[0] != ("WAR"@)[0]); }
        assert(("MCH"@) != ("DRK"@)) by { assert(("MCH"@)[0] != ("DRK"@)[0]); }
        assert(("MCH"@) != ("GNB"@)) by { assert(("MCH"@)[0] != ("GNB"@)[0]); }
        assert(("MCH"@) != ("WHM"@)) by { assert(("MCH"@)[0] != ("WHM"@)[0]); }
        assert(("MCH"@) != ("AST"@)) by { assert(("MCH"@)[0] != ("AST"@)[0]); }
        assert(("MCH"@) != ("SCH"@)) by { assert(("MCH"@)[0] != ("SCH"@)[0]); }
        assert(("MCH"@) != ("SGE"@)) by { assert(("MCH"@)[0] != ("SGE"@)[0]); }
        assert(("MCH"@) != ("MNK"@)) by { assert(("MCH"@)[1] != ("MNK"@)[1]); }
        assert(("MCH"@) != ("DRG"@)) by { assert(("MCH"@)[0] != ("DRG"@)[0]); }
        assert(("MCH"@) != ("NIN"@)) by { assert(("MCH"@)[0] != ("NIN"@)[0]); }
        assert(("MCH"@) != ("SAM"@)) by { assert(("MCH"@)[0] != ("SAM"@)[0]); }
        assert(("MCH"@) != ("RPR"@)) by { assert(("MCH"@)[0] != ("RPR"@)[0]); }
        assert(("MCH"@) != ("BRD"@)) by { assert(("MCH"@)[0] != ("BRD"@)[0]); }
        assert(("DNC"@) != ("PLD"@)) by { assert(("DNC"@)[0] != ("PLD"@)[0]); }
        assert(("DNC"@) != ("WAR"@)) by { assert(("DNC"@)[0] != ("WAR"@)[0]); }
        assert(("DNC"@) != ("DRK"@)) by { assert(("DNC"@)[1] != ("DRK"@)[1]); }
        assert(("DNC"@) != ("GNB"@)) by { assert(("DNC"@)[0] != ("GNB"@)[0]); }
        assert(("DNC"@) != ("WHM"@)) by { assert(("DNC"@)[0] != ("WHM"@)[0]); }
        assert(("DNC"@) != ("AST"@)) by { assert(("DNC"@)[0] != ("AST"@)[0]); }
        assert(("DNC"@) != ("SCH"@)) by { assert(("DNC"@)[0] != ("SCH"@)[0]); }
        assert(("DNC"@) != ("SGE"@)) by { assert(("DNC"@)[0] != ("SGE"@)[0]); }
        assert(("DNC"@) != ("MNK"@)) by { assert(("DNC"@)[0] != ("MNK"@)[0]); }
        assert(("DNC"@) != ("DRG"@)) by { assert(("DNC"@)[1] != ("DRG"@)[1]); }
        assert(("DNC"@) != ("NIN"@)) by { assert(("DNC"@)[0] != ("NIN"@)[0]); }
        assert(("DNC"@) != ("SAM"@)) by { assert(("DNC"@)[0] != ("SAM"@)[0]); }
        assert(("DNC"@) != ("RPR"@)) by { assert(("DNC"@)[0] != ("RPR"@)[0]); }
        assert(("DNC"@) != ("BRD"@)) by { assert(("DNC"@)[0] != ("BRD"@)[0]); }
        assert(("DNC"@) != ("MCH"@)) by { assert(("DNC"@)[0] != ("MCH"@)[0]); }
        assert(("BLM"@) != ("PLD"@)) by { assert(("BLM"@)[0] != ("PLD"@)[0]); }
        assert(("BLM"@) != ("WAR"@)) by { assert(("BLM"@)[0] != ("WAR"@)[0]); }
        assert(("BLM"@) != ("DRK"@)) by { assert(("BLM"@)[0] != ("DRK"@)[0]); }
        assert(("BLM"@) != ("GNB"@)) by { assert(("BLM"@)[0] != ("GNB"@)[0]); }
        assert(("BLM"@) != ("WHM"@)) by { assert(("BLM"@)[0] != ("WHM"@)[0]); }
        assert(("BLM"@) != ("AST"@)) by { assert(("BLM"@)[0] != ("AST"@)[0]); }
        assert(("BLM"@) != ("SCH"@)) by { assert(("BLM"@)[0] != ("SCH"@)[0]); }
        assert(("BLM"@) != ("SGE"@)) by { assert(("BLM"@)[0] != ("SGE"@)[0]); }
        assert(("BLM"@) != ("MNK"@)) by { assert(("BLM"@)[0] != ("MNK"@)[0]); }
        assert(("BLM"@) != ("DRG"@)) by { assert(("BLM"@)[0] != ("DRG"@)[0]); }
        assert(("BLM"@) != ("NIN"@)) by { assert(("BLM"@)[0] != ("NIN"@)[0]); }
        assert(("BLM"@) != ("SAM"@)) by { assert(("BLM"@)[0] != ("SAM"@)[0]); }
        assert(("BLM"@) != ("RPR"@)) by { assert(("BLM"@)[0] != ("RPR"@)[0]); }
        assert(("BLM"@) != ("BRD"@)) by { assert(("BLM"@)[1] != ("BRD"@)[1]); }
        assert(("BLM"@) != ("MCH"@)) by { assert(("BLM"@)[0] != ("MCH"@)[0]); }
        assert(("BLM"@) != ("DNC"@)) by { assert(("BLM"@)[0] != ("DNC"@)[0]); }
        assert(("RDM"@) != ("PLD"@)) by { assert(("RDM"@)[0] != ("PLD"@)[0]); }
        assert(("RDM"@) != ("WAR"@)) by { assert(("RDM"@)[0] != ("WAR"@)[0]); }
        assert(("RDM"@) != ("DRK"@)) by { assert(("RDM"@)[0] != ("DRK"@)[0]); }
        assert(("RDM"@) != ("GNB"@)) by { assert(("RDM"@)[0] != ("GNB"@)[0]); }
        assert(("RDM"@) != ("WHM"@)) by { assert(("RDM"@)[0] != ("WHM"@)[0]); }
        assert(("RDM"@) != ("AST"@)) by { assert(("RDM"@)[0] != ("AST"@)[0]); }
        assert(("RDM"@) != ("SCH"@)) by { assert(("RDM"@)[0] != ("SCH"@)[0]); }
        assert(("RDM"@) != ("SGE"@)) by { assert(("RDM"@)[0] != ("SGE"@)[0]); }
        assert(("RDM"@) != ("MNK"@)) by { assert(("RDM"@)[0] != ("MNK"@)[0]); }
        assert(("RDM"@) != ("DRG"@)) by { assert(("RDM"@)[0] != ("DRG"@)[0]); }
        assert(("RDM"@) != ("NIN"@)) by { assert(("RDM"@)[0] != ("NIN"@)[0]); }
        assert(("RDM"@) != ("SAM"@)) by { assert(("RDM"@)[0] != ("SAM"@)[0]); }
        assert(("RDM"@) != ("RPR"@)) by { assert(("RDM"@)[1] != ("RPR"@)[1]); }
        assert(("RDM"@) != ("BRD"@)) by { assert(("RDM"@)[0] != ("BRD"@)[0]); }
        assert(("RDM"@) != ("MCH"@)) by { assert(("RDM"@)[0] != ("MCH"@)[0]); }
        assert(("RDM"@) != ("DNC"@)) by { assert(("RDM"@)[0] != ("DNC"@)[0]); }
        assert(("RDM"@) != ("BLM"@)) by { assert(("RDM"@)[0] != ("BLM"@)[0]); }
        assert(("SMN"@) != ("PLD"@)) by { assert(("SMN"@)[0] != ("PLD"@)[0]); }
        assert(("SMN"@) != ("WAR"@)) by { assert(("SMN"@)[0] != ("WAR"@)[0]); }
        assert(("SMN"@) != ("DRK"@)) by { assert(("SMN"@)[0] != ("DRK"@)[0]); }
        assert(("SMN"@) != ("GNB"@)) by { assert(("SMN"@)[0] != ("GNB"@)[0]); }
        assert(("SMN"@) != ("WHM"@)) by { assert(("SMN"@)[0] != ("WHM"@)[0]); }
        assert(("SMN"@) != ("AST"@)) by { assert(("SMN"@)[0] != ("AST"@)[0]); }
        assert(("SMN"@) != ("SCH"@)) by { assert(("SMN"@)[1] != ("SCH"@)[1]); }
        assert(("SMN"@) != ("SGE"@)) by { assert(("SMN"@)[1] != ("SGE"@)[1]); }
        assert(("SMN"@) != ("MNK"@)) by { assert(("SMN"@)[0] != ("MNK"@)[0]); }
        assert(("SMN"@) != ("DRG"@)) by { assert(("SMN"@)[0] != ("DRG"@)[0]); }
        assert(("SMN"@) != ("NIN"@)) by { assert(("SMN"@)[0] != ("NIN"@)[0]); }
        assert(("SMN"@) != ("SAM"@)) by { assert(("SMN"@)[1] != ("SAM"@)[1]); }
        assert(("SMN"@) != ("RPR"@)) by { assert(("SMN"@)[0] != ("RPR"@)[0]); }
        assert(("SMN"@) != ("BRD"@)) by { assert(("SMN"@)[0] != ("BRD"@)[0]); }
        assert(("SMN"@) != ("MCH"@)) by { assert(("SMN"@)[0] != ("MCH"@)[0]); }
        assert(("SMN"@) != ("DNC"@)) by { assert(("SMN"@)[0] != ("DNC"@)[0]); }
        assert(("SMN"@) != ("BLM"@)) by { assert(("SMN"@)[0] != ("BLM"@)[0]); }
        assert(("SMN"@) != ("RDM"@)) by { assert(("SMN"@)[0] != ("RDM"@)[0]); }
        assert(("BLU"@) != ("PLD"@)) by { assert(("BLU"@)[0] != ("PLD"@)[0]); }
        assert(("BLU"@) != ("WAR"@)) by { assert(("BLU"@)[0] != ("WAR"@)[0]); }
        assert(("BLU"@) != ("DRK"@)) by { assert(("BLU"@)[0] != ("DRK"@)[0]); }
        assert(("BLU"@) != ("GNB"@)) by { assert(("BLU"@)[0] != ("GNB"@)[0]); }
        assert(("BLU"@) != ("WHM"@)) by { assert(("BLU"@)[0] != ("WHM"@)[0]); }
        assert(("BLU"@) != ("AST"@)) by { assert(("BLU"@)[0] != ("AST"@)[0]); }
        assert(("BLU"@) != ("SCH"@)) by { assert(("BLU"@)[0] != ("SCH"@)[0]); }
        assert(("BLU"@) != ("SGE"@)) by { assert(("BLU"@)[0] != ("SGE"@)[0]); }
        assert(("BLU"@) != ("MNK"@)) by { assert(("BLU"@)[0] != ("MNK"@)[0]); }
        assert(("BLU"@) != ("DRG"@)) by { assert(("BLU"@)[0] != ("DRG"@)[0]); }
        assert(("BLU"@) != ("NIN"@)) by { assert(("BLU"@)[0] != ("NIN"@)[0]); }
        assert(("BLU"@) != ("SAM"@)) by { assert(("BLU"@)[0] != ("SAM"@)[0]); }
        assert(("BLU"@) != ("RPR"@)) by { assert(("BLU"@)[0] != ("RPR"@)[0]); }
        assert(("BLU"@) != ("BRD"@)) by { assert(("BLU"@)[1] != ("BRD"@)[1]); }
        assert(("BLU"@) != ("MCH"@)) by { assert(("BLU"@)[0] != ("MCH"@)[0]); }
        assert(("BLU"@) != ("DNC"@)) by { assert(("BLU"@)[0] != ("DNC"@)[0]); }
        assert(("BLU"@) != ("BLM"@)) by { assert(("BLU"@)[2] != ("BLM"@)[2]); }
        assert(("BLU"@) != ("RDM"@)) by { assert(("BLU"@)[0] != ("RDM"@)[0]); }
        assert(("BLU"@) != ("SMN"@)) by { assert(("BLU"@)[0] != ("SMN"@)[0]); }
        assert(("LB"@) != ("PLD"@)) by { assert(("LB"@).len() != ("PLD"@).len()); }
        assert(("LB"@) != ("WAR"@)) by { assert(("LB"@).len() != ("WAR"@).len()); }
        assert(("LB"@) != ("DRK"@)) by { assert(("LB"@).len() != ("DRK"@).len()); }
        assert(("LB"@) != ("GNB"@)) by { assert(("LB"@).len() != ("GNB"@).len()); }
        assert(("LB"@) != ("WHM"@)) by { assert(("LB"@).len() != ("WHM"@).len()); }
        assert(("LB"@) != ("AST"@)) by { assert(("LB"@).len() != ("AST"@).len()); }
        assert(("LB"@) != ("SCH"@)) by { assert(("LB"@).len() != ("SCH"@).len()); }
        assert(("LB"@) != ("SGE"@)) by { assert(("LB"@).len() != ("SGE"@).len()); }
        assert(("LB"@) != ("MNK"@)) by { assert(("LB"@).len() != ("MNK"@).len()); }
        assert(("LB"@) != ("DRG"@)) by { assert(("LB"@).len() != ("DRG"@).len()); }
        assert(("LB"@) != ("NIN"@)) by { assert(("LB"@).len() != ("NIN"@).len()); }
        assert(("LB"@) != ("SAM"@)) by { assert(("LB"@).len() != ("SAM"@).len()); }
        assert(("LB"@) != ("RPR"@)) by { assert(("LB"@).len() != ("RPR"@).len()); }
        assert(("LB"@) != ("BRD"@)) by { assert(("LB"@).len() != ("BRD"@).len()); }
        assert(("LB"@) != ("MCH"@)) by { assert(("LB"@).len() != ("MCH"@).len()); }
        assert(("LB"@) != ("DNC"@)) by { assert(("LB"@).len() != ("DNC"@).len()); }
        assert(("LB"@) != ("BLM"@)) by { assert(("LB"@).len() != ("BLM"@).len()); }
        assert(("LB"@) != ("RDM"@)) by { assert(("LB"@).len() != ("RDM"@).len()); }
        assert(("LB"@) != ("SMN"@)) by { assert(("LB"@).len() != ("SMN"@).len()); }
        assert(("LB"@) != ("BLU"@)) by { assert(("LB"@).len() != ("BLU"@).len()); }
        assert(("PCT"@) != ("PLD"@)) by { assert(("PCT"@)[1] != ("PLD"@)[1]); }
        assert(("PCT"@) != ("WAR"@)) by { assert(("PCT"@)[0] != ("WAR"@)[0]); }
        assert(("PCT"@) != ("DRK"@)) by { assert(("PCT"@)[0] != ("DRK"@)[0]); }
        assert(("PCT"@) != ("GNB"@)) by { assert(("PCT"@)[0] != ("GNB"@)[0]); }
        assert(("PCT"@) != ("WHM"@)) by { assert(("PCT"@)[0] != ("WHM"@)[0]); }
        assert(("PCT"@) != ("AST"@)) by { assert(("PCT"@)[0] != ("AST"@)[0]); }
        assert(("PCT"@) != ("SCH"@)) by { assert(("PCT"@)[0] != ("SCH"@)[0]); }
        assert(("PCT"@) != ("SGE"@)) by { assert(("PCT"@)[0] != ("SGE"@)[0]); }
        assert(("PCT"@) != ("MNK"@)) by { assert(("PCT"@)[0] != ("MNK"@)[0]); }
        assert(("PCT"@) != ("DRG"@)) by { assert(("PCT"@)[0] != ("DRG"@)[0]); }
        assert(("PCT"@) != ("NIN"@)) by { assert(("PCT"@)[0] != ("NIN"@)[0]); }
        assert(("PCT"@) != ("SAM"@)) by { assert(("PCT"@)[0] != ("SAM"@)[0]); }
        assert(("PCT"@) != ("RPR"@)) by { assert(("PCT"@)[0] != ("RPR"@)[0]); }
        assert(("PCT"@) != ("BRD"@)) by { assert(("PCT"@)[0] != ("BRD"@)[0]); }
        assert(("PCT"@) != ("MCH"@)) by { assert(("PCT"@)[0] != ("MCH"@)[0]); }
        assert(("PCT"@) != ("DNC"@)) by { assert(("PCT"@)[0] != ("DNC"@)[0]); }
        assert(("PCT"@) != ("BLM"@)) by { assert(("PCT"@)[0] != ("BLM"@)[0]); }
        assert(("PCT"@) != ("RDM"@)) by { assert(("PCT"@)[0] != ("RDM"@)[0]); }
        assert(("PCT"@) != ("SMN"@)) by { assert(("PCT"@)[0] != ("SMN"@)[0]); }
        assert(("PCT"@) != ("BLU"@)) by { assert(("PCT"@)[0] != ("BLU"@)[0]); }
        assert(("PCT"@) != ("LB"@)) by { assert(("PCT"@).len() != ("LB"@).len()); }
        assert(("VPR"@) != ("PLD"@)) by { assert(("VPR"@)[0] != ("PLD"@)[0]); }
        assert(("VPR"@) != ("WAR"@)) by { assert(("VPR"@)[0] != ("WAR"@)[0]); }
        assert(("VPR"@) != ("DRK"@)) by { assert(("VPR"@)[0] != ("DRK"@)[0]); }
        assert(("VPR"@) != ("GNB"@)) by { assert(("VPR"@)[0] != ("GNB"@)[0]); }
        assert(("VPR"@) != ("WHM"@)) by { assert(("VPR"@)[0] != ("WHM"@)[0]); }
        assert(("VPR"@) != ("AST"@)) by { assert(("VPR"@)[0] != ("AST"@)[0]); }
        assert(("VPR"@) != ("SCH"@)) by { assert(("VPR"@)[0] != ("SCH"@)[0]); }
        assert(("VPR"@) != ("SGE"@)) by { assert(("VPR"@)[0] != ("SGE"@)[0]); }
        assert(("VPR"@) != ("MNK"@)) by { assert(("VPR"@)[0] != ("MNK"@)[0]); }
        assert(("VPR"@) != ("DRG"@)) by { assert(("VPR"@)[0] != ("DRG"@)[0]); }
        assert(("VPR"@) != ("NIN"@)) by { assert(("VPR"@)[0] != ("NIN"@)[0]); }
        assert(("VPR"@) != ("SAM"@)) by { assert(("VPR"@)[0] != ("SAM"@)[0]); }
        assert(("VPR"@) != ("RPR"@)) by { assert(("VPR"@)[0] != ("RPR"@)[0]); }
        assert(("VPR"@) != ("BRD"@)) by { assert(("VPR"@)[0] != ("BRD"@)[0]); }
        assert(("VPR"@) != ("MCH"@)) by { assert(("VPR"@)[0] != ("MCH"@)[0]); }
        assert(("VPR"@) != ("DNC"@)) by { assert(("VPR"@)[0] != ("DNC"@)[0]); }
        assert(("VPR"@) != ("BLM"@)) by { assert(("VPR"@)[0] != ("BLM"@)[0]); }
        assert(("VPR"@) != ("RDM"@)) by { assert(("VPR"@)[0] != ("RDM"@)[0]); }
        assert(("VPR"@) != ("SMN"@)) by { assert(("VPR"@)[0] != ("SMN"@)[0]); }
        assert(("VPR"@) != ("BLU"@)) by { assert(("VPR"@)[0] != ("BLU"@)[0]); }
        assert(("VPR"@) != ("LB"@)) by { assert(("VPR"@).len() != ("LB"@).len()); }
        assert(("VPR"@) != ("PCT"@)) by { assert(("VPR"@)[0] != ("PCT"@)[0]); }
    }
    match j {
        Job::PLD => "PLD".to_owned(),
        Job::WAR => "WAR".to_owned(),
        Job::DRK => "DRK".to_owned(),
        Job::GNB => "GNB".to_owned(),
        Job::WHM => "WHM".to_owned(),
        Job::AST => "AST".to_owned(),
        Job::SCH => "SCH".to_owned(),
        Job::SGE => "SGE".to_owned(),
        Job::MNK => "MNK".to_owned(),
        Job::DRG => "DRG".to_owned(),
        Job::NIN => "NIN".to_owned(),
        Job::SAM => "SAM".to_owned(),
        Job::RPR => "RPR".to_owned(),
        Job::BRD => "BRD".to_owned(),
        Job::MCH => "MCH".to_owned(),
        Job::DNC => "DNC".to_owned(),
        Job::BLM => "BLM".to_owned(),
        Job::RDM => "RDM".to_owned(),
        Job::SMN => "SMN".to_owned(),
        Job::BLU => "BLU".to_owned(),
        Job::LB => "LB".to_owned(),
        Job::PCT => "PCT".to_owned(),
        Job::VPR => "VPR".to_owned(),
    }
}

} // verus!
