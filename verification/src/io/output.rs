//! Rendering of engine results as text, CSV, JSON and nuon.
//!
//! Rendering never changes a result; each formatter only walks the value it
//! is given and builds a string.

use vstd::prelude::*;
use vstd::string::StringExecFns;
use crate::config::MAX_DIFFERENCES_TO_SHOW;
use crate::eval::equivalence::EquivalenceCheck;
use crate::eval::reduction::Reduction;
use crate::eval::truth_table::TruthTable;
use crate::eval::Variables;
use crate::text::push_char;

verus! {

/// The output format a command renders its result in.
#[derive(Debug, Clone, PartialEq, Eq)]
pub enum OutputFormat {
    /// Human-readable table format (default).
    Table,
    /// JSON format.
    Json,
    /// CSV format.
    Csv,
    /// Nuon format.
    Nuon,
}

/// Every row of the table carries a well-formed assignment.
pub open spec fn table_rows_wf(t: TruthTable) -> bool {
    forall|i: int| 0 <= i < t.rows@.len() ==> (#[trigger] t.rows@[i]).assignments.wf()
}

/// Every recorded difference carries a well-formed assignment.
pub open spec fn check_rows_wf(c: EquivalenceCheck) -> bool {
    forall|i: int| 0 <= i < c.differences@.len() ==> (#[trigger] c.differences@[i]).assignment.wf()
}

/// Writes `n` in decimal.
fn usize_to_string(n: usize) -> (r: String) {
    let mut digits: Vec<char> = Vec::new();
    let mut rest: usize = n;
    if rest == 0 {
        digits.push('0');
    }
    while rest > 0
        decreases rest,
    {
        let d: usize = rest % 10;
        let c: char = match d {
            0 => '0',
            1 => '1',
            2 => '2',
            3 => '3',
            4 => '4',
            5 => '5',
            6 => '6',
            7 => '7',
            8 => '8',
            _ => '9',
        };
        digits.push(c);
        rest = rest / 10;
    }
    let mut r = String::new();
    let mut i: usize = digits.len();
    while i > 0
        invariant
            i <= digits@.len(),
        decreases i,
    {
        i = i - 1;
        push_char(&mut r, digits[i]);
    }
    r
}

/// Pads the text on the left with spaces up to the width, in characters.
fn pad_left(s: &str, width: usize) -> (r: String) {
    let len: usize = s.unicode_len();
    let mut r = String::new();
    let mut i: usize = len;
    while i < width
        invariant
            len <= i <= width || (len > width && i == len),
        decreases width - i,
    {
        push_char(&mut r, ' ');
        i = i + 1;
    }
    r.append(s);
    r
}

/// Escapes a string for a JSON literal: quotes, backslashes and control
/// characters.
fn json_escape(s: &str) -> (r: String) {
    let chars = crate::text::str_chars(s);
    let mut r = String::new();
    let mut i: usize = 0;
    while i < chars.len()
        invariant
            0 <= i <= chars@.len(),
        decreases chars@.len() - i,
    {
        let c = chars[i];
        if c == '"' {
            r.append("\\\"");
        } else if c == '\\' {
            r.append("\\\\");
        } else if c == '\n' {
            r.append("\\n");
        } else if c == '\r' {
            r.append("\\r");
        } else if c == '\t' {
            r.append("\\t");
        } else if (c as u32) < 0x20 {
            // other control characters are rare; render them blank
            r.append("\\u0000");
        } else {
            push_char(&mut r, c);
        }
        i = i + 1;
    }
    r
}

/// `"true"` or `"false"`.
fn bool_word(b: bool) -> (r: &'static str)
    ensures
        b ==> r@ == "true"@,
        !b ==> r@ == "false"@,
{
    if b {
        "true"
    } else {
        "false"
    }
}

/// Renders one result kind each; every formatter implements all three.
pub trait Formatter {
    fn format_truth_table(&self, table: &TruthTable) -> (r: String)
        requires
            table_rows_wf(*table),
    ;

    fn format_equivalence_result(
        &self,
        check: &EquivalenceCheck,
        left_str: &str,
        right_str: &str,
    ) -> (r: String)
        requires
            check_rows_wf(*check),
    ;

    fn format_reduction_result(&self, reduction: &Reduction) -> (r: String);
}

/// The human-readable table renderer.
pub struct TableFormatter;

/// The JSON renderer.
pub struct JsonFormatter;

/// The CSV renderer.
pub struct CsvFormatter;

/// The nuon renderer.
pub struct NuonFormatter;

impl Formatter for TableFormatter {
    fn format_truth_table(&self, table: &TruthTable) -> (r: String) {
        let mut output = String::new();
        let n: usize = table.variables.len();
        let mut v: usize = 0;
        while v < n
            invariant
                n == table.variables@.len(),
            decreases n - v,
        {
            output.append(pad_left(table.variables.name_at(v).as_str(), 4).as_str());
            v = v + 1;
        }
        output.append(pad_left("Result", 8).as_str());
        output.append("\n");
        let mut v2: usize = 0;
        while v2 < n
            invariant
                true,
            decreases n - v2,
        {
            output.append("----");
            v2 = v2 + 1;
        }
        output.append("--------\n");
        let mut i: usize = 0;
        while i < table.rows.len()
            invariant
                n == table.variables@.len(),
                table_rows_wf(*table),
                0 <= i <= table.rows@.len(),
            decreases table.rows@.len() - i,
        {
            let mut v3: usize = 0;
            while v3 < n
                invariant
                    n == table.variables@.len(),
                    table_rows_wf(*table),
                    0 <= i < table.rows@.len(),
                decreases n - v3,
            {
                let value = table.rows[i].assignments.get(table.variables.name_at(v3).as_str());
                output.append(pad_left(if value {
                    "T"
                } else {
                    "F"
                }, 4).as_str());
                v3 = v3 + 1;
            }
            output.append(pad_left(if table.rows[i].result {
                "T"
            } else {
                "F"
            }, 8).as_str());
            output.append("\n");
            i = i + 1;
        }
        output
    }

    fn format_equivalence_result(
        &self,
        check: &EquivalenceCheck,
        left_str: &str,
        right_str: &str,
    ) -> (r: String) {
        let mut output = String::new();
        if check.equivalent {
            output.append("\u{2713} Expressions are equivalent\n");
            output.append("  Left:  ");
            output.append(left_str);
            output.append("\n");
            output.append("  Right: ");
            output.append(right_str);
            output.append("\n");
        } else {
            output.append("\u{2717} Expressions are not equivalent\n");
            output.append("  Left:  ");
            output.append(left_str);
            output.append("\n");
            output.append("  Right: ");
            output.append(right_str);
            output.append("\n");
            output.append("\nDifferences:\n");
            let shown: usize = if check.differences.len() < MAX_DIFFERENCES_TO_SHOW {
                check.differences.len()
            } else {
                MAX_DIFFERENCES_TO_SHOW
            };
            let mut d: usize = 0;
            while d < shown
                invariant
                    check_rows_wf(*check),
                    shown <= check.differences@.len(),
                    0 <= d <= shown,
                decreases shown - d,
            {
                output.append("  ");
                let n: usize = check.variables.len();
                let mut v: usize = 0;
                while v < n
                    invariant
                        check_rows_wf(*check),
                        n == check.variables@.len(),
                        0 <= d < check.differences@.len(),
                    decreases n - v,
                {
                    let name = check.variables.name_at(v);
                    let value = check.differences[d].assignment.get(name.as_str());
                    output.append(name.as_str());
                    output.append("=");
                    output.append(if value {
                        "T"
                    } else {
                        "F"
                    });
                    output.append(" ");
                    v = v + 1;
                }
                output.append("\u{2192} Left=");
                output.append(if check.differences[d].left_value {
                    "T"
                } else {
                    "F"
                });
                output.append(", Right=");
                output.append(if check.differences[d].right_value {
                    "T"
                } else {
                    "F"
                });
                output.append("\n");
                d = d + 1;
            }
            if check.differences.len() > MAX_DIFFERENCES_TO_SHOW {
                output.append("  ... and ");
                output.append(
                    usize_to_string(check.differences.len() - MAX_DIFFERENCES_TO_SHOW).as_str(),
                );
                output.append(" more differences\n");
            }
        }
        output
    }

    fn format_reduction_result(&self, reduction: &Reduction) -> (r: String) {
        let mut output = String::new();
        output.append("Expression: ");
        output.append(reduction.original.to_text().as_str());
        output.append("\n");
        if reduction.simplified {
            output.append("Reduced form: ");
            output.append(reduction.reduced.to_text().as_str());
            output.append("\n");
        } else {
            output.append("Reduced form: ");
            output.append(reduction.reduced.to_text().as_str());
            output.append(" (already minimal)\n");
        }
        output
    }
}

/// Renders the sorted variable names as a JSON array of strings.
fn json_variables(variables: &Variables) -> (r: String) {
    let mut r = String::new();
    r.append("[");
    let n: usize = variables.len();
    let mut v: usize = 0;
    while v < n
        invariant
            n == variables@.len(),
        decreases n - v,
    {
        if v > 0 {
            r.append(",");
        }
        r.append("\"");
        r.append(json_escape(variables.name_at(v).as_str()).as_str());
        r.append("\"");
        v = v + 1;
    }
    r.append("]");
    r
}

/// Renders an expression tree as JSON, one externally tagged object per
/// node.
fn json_expr(e: &crate::source::parser::Expr) -> (r: String)
    decreases *e,
{
    let mut r = String::new();
    match e {
        crate::source::parser::Expr::Identifier(name) => {
            r.append("{\"Identifier\":\"");
            r.append(json_escape(name.as_str()).as_str());
            r.append("\"}");
        },
        crate::source::parser::Expr::Not(inner) => {
            r.append("{\"Not\":");
            r.append(json_expr(inner).as_str());
            r.append("}");
        },
        crate::source::parser::Expr::And(l, rr) => {
            r.append("{\"And\":[");
            r.append(json_expr(l).as_str());
            r.append(",");
            r.append(json_expr(rr).as_str());
            r.append("]}");
        },
        crate::source::parser::Expr::Or(l, rr) => {
            r.append("{\"Or\":[");
            r.append(json_expr(l).as_str());
            r.append(",");
            r.append(json_expr(rr).as_str());
            r.append("]}");
        },
        crate::source::parser::Expr::Xor(l, rr) => {
            r.append("{\"Xor\":[");
            r.append(json_expr(l).as_str());
            r.append(",");
            r.append(json_expr(rr).as_str());
            r.append("]}");
        },
        crate::source::parser::Expr::Implication(l, rr) => {
            r.append("{\"Implication\":[");
            r.append(json_expr(l).as_str());
            r.append(",");
            r.append(json_expr(rr).as_str());
            r.append("]}");
        },
    }
    r
}

impl Formatter for JsonFormatter {
    fn format_truth_table(&self, table: &TruthTable) -> (r: String) {
        let mut r = String::new();
        r.append("{\"variables\":{\"names\":");
        r.append(json_variables(&table.variables).as_str());
        r.append("},\"rows\":[");
        let mut i: usize = 0;
        while i < table.rows.len()
            invariant
                table_rows_wf(*table),
                0 <= i <= table.rows@.len(),
            decreases table.rows@.len() - i,
        {
            if i > 0 {
                r.append(",");
            }
            r.append("{\"assignments\":{");
            let n: usize = table.variables.len();
            let mut v: usize = 0;
            while v < n
                invariant
                    table_rows_wf(*table),
                    n == table.variables@.len(),
                    0 <= i < table.rows@.len(),
                decreases n - v,
            {
                if v > 0 {
                    r.append(",");
                }
                let name = table.variables.name_at(v);
                r.append("\"");
                r.append(json_escape(name.as_str()).as_str());
                r.append("\":");
                r.append(bool_word(table.rows[i].assignments.get(name.as_str())));
                v = v + 1;
            }
            r.append("},\"result\":");
            r.append(bool_word(table.rows[i].result));
            r.append("}");
            i = i + 1;
        }
        r.append("]}");
        r
    }

    fn format_equivalence_result(
        &self,
        check: &EquivalenceCheck,
        left_str: &str,
        right_str: &str,
    ) -> (r: String) {
        let mut r = String::new();
        r.append("{\"equivalent\":");
        r.append(bool_word(check.equivalent));
        r.append(",\"left_expression\":\"");
        r.append(json_escape(left_str).as_str());
        r.append("\",\"right_expression\":\"");
        r.append(json_escape(right_str).as_str());
        r.append("\",\"differences\":[");
        let mut d: usize = 0;
        while d < check.differences.len()
            invariant
                check_rows_wf(*check),
                0 <= d <= check.differences@.len(),
            decreases check.differences@.len() - d,
        {
            if d > 0 {
                r.append(",");
            }
            r.append("{\"assignment\":{");
            let n: usize = check.variables.len();
            let mut v: usize = 0;
            while v < n
                invariant
                    check_rows_wf(*check),
                    n == check.variables@.len(),
                    0 <= d < check.differences@.len(),
                decreases n - v,
            {
                if v > 0 {
                    r.append(",");
                }
                let name = check.variables.name_at(v);
                r.append("\"");
                r.append(json_escape(name.as_str()).as_str());
                r.append("\":");
                r.append(bool_word(check.differences[d].assignment.get(name.as_str())));
                v = v + 1;
            }
            r.append("},\"left_value\":");
            r.append(bool_word(check.differences[d].left_value));
            r.append(",\"right_value\":");
            r.append(bool_word(check.differences[d].right_value));
            r.append("}");
            d = d + 1;
        }
        r.append("]}");
        r
    }

    fn format_reduction_result(&self, reduction: &Reduction) -> (r: String) {
        let mut r = String::new();
        r.append("{\"original\":");
        r.append(json_expr(&reduction.original).as_str());
        r.append(",\"reduced\":");
        r.append(json_expr(&reduction.reduced).as_str());
        r.append(",\"simplified\":");
        r.append(bool_word(reduction.simplified));
        r.append("}");
        r
    }
}

impl Formatter for CsvFormatter {
    fn format_truth_table(&self, table: &TruthTable) -> (r: String) {
        let mut output = String::new();
        let n: usize = table.variables.len();
        let mut v: usize = 0;
        while v < n
            invariant
                n == table.variables@.len(),
            decreases n - v,
        {
            output.append(table.variables.name_at(v).as_str());
            output.append(",");
            v = v + 1;
        }
        output.append("result\n");
        let mut i: usize = 0;
        while i < table.rows.len()
            invariant
                table_rows_wf(*table),
                n == table.variables@.len(),
                0 <= i <= table.rows@.len(),
            decreases table.rows@.len() - i,
        {
            let mut v2: usize = 0;
            while v2 < n
                invariant
                    table_rows_wf(*table),
                    n == table.variables@.len(),
                    0 <= i < table.rows@.len(),
                decreases n - v2,
            {
                let value = table.rows[i].assignments.get(table.variables.name_at(v2).as_str());
                output.append(bool_word(value));
                output.append(",");
                v2 = v2 + 1;
            }
            output.append(bool_word(table.rows[i].result));
            output.append("\n");
            i = i + 1;
        }
        output
    }

    fn format_equivalence_result(
        &self,
        check: &EquivalenceCheck,
        left_str: &str,
        right_str: &str,
    ) -> (r: String) {
        let mut output = String::new();
        output.append("equivalent,left_expression,right_expression\n");
        output.append(bool_word(check.equivalent));
        output.append(",");
        output.append(left_str);
        output.append(",");
        output.append(right_str);
        output.append("\n");
        if check.differences.len() > 0 {
            output.append("\nDifferences:\n");
            let n: usize = check.variables.len();
            let mut v: usize = 0;
            while v < n
                invariant
                    n == check.variables@.len(),
                decreases n - v,
            {
                output.append(check.variables.name_at(v).as_str());
                output.append(",");
                v = v + 1;
            }
            output.append("left_value,right_value\n");
            let mut d: usize = 0;
            while d < check.differences.len()
                invariant
                    check_rows_wf(*check),
                    n == check.variables@.len(),
                    0 <= d <= check.differences@.len(),
                decreases check.differences@.len() - d,
            {
                let mut v2: usize = 0;
                while v2 < n
                    invariant
                        check_rows_wf(*check),
                        n == check.variables@.len(),
                        0 <= d < check.differences@.len(),
                    decreases n - v2,
                {
                    let value = check.differences[d].assignment.get(
                        check.variables.name_at(v2).as_str(),
                    );
                    output.append(bool_word(value));
                    output.append(",");
                    v2 = v2 + 1;
                }
                output.append(bool_word(check.differences[d].left_value));
                output.append(",");
                output.append(bool_word(check.differences[d].right_value));
                output.append("\n");
                d = d + 1;
            }
        }
        output
    }

    fn format_reduction_result(&self, reduction: &Reduction) -> (r: String) {
        let mut output = String::new();
        output.append("original,reduced,simplified\n\"");
        output.append(reduction.original.to_text().as_str());
        output.append("\",\"");
        output.append(reduction.reduced.to_text().as_str());
        output.append("\",");
        output.append(bool_word(reduction.simplified));
        output.append("\n");
        output
    }
}

impl Formatter for NuonFormatter {
    fn format_truth_table(&self, table: &TruthTable) -> (r: String) {
        let mut output = String::new();
        output.append("[\n");
        let n: usize = table.variables.len();
        let mut i: usize = 0;
        while i < table.rows.len()
            invariant
                table_rows_wf(*table),
                n == table.variables@.len(),
                0 <= i <= table.rows@.len(),
            decreases table.rows@.len() - i,
        {
            output.append("  {");
            let mut v: usize = 0;
            while v < n
                invariant
                    table_rows_wf(*table),
                    n == table.variables@.len(),
                    0 <= i < table.rows@.len(),
                decreases n - v,
            {
                let name = table.variables.name_at(v);
                let value = table.rows[i].assignments.get(name.as_str());
                output.append(name.as_str());
                output.append(": ");
                output.append(bool_word(value));
                if v + 1 < n {
                    output.append(", ");
                }
                v = v + 1;
            }
            output.append(", result: ");
            output.append(bool_word(table.rows[i].result));
            output.append("}");
            if i + 1 < table.rows.len() {
                output.append(",\n");
            } else {
                output.append("\n");
            }
            i = i + 1;
        }
        output.append("]\n");
        output
    }

    fn format_equivalence_result(
        &self,
        check: &EquivalenceCheck,
        left_str: &str,
        right_str: &str,
    ) -> (r: String) {
        let mut output = String::new();
        output.append("{\n");
        output.append("  equivalent: ");
        output.append(bool_word(check.equivalent));
        output.append(",\n");
        output.append("  left_expression: \"");
        output.append(left_str);
        output.append("\",\n");
        output.append("  right_expression: \"");
        output.append(right_str);
        output.append("\",\n");
        output.append("  differences: [\n");
        let n: usize = check.variables.len();
        let mut d: usize = 0;
        while d < check.differences.len()
            invariant
                check_rows_wf(*check),
                n == check.variables@.len(),
                0 <= d <= check.differences@.len(),
            decreases check.differences@.len() - d,
        {
            output.append("    {");
            let mut v: usize = 0;
            while v < n
                invariant
                    check_rows_wf(*check),
                    n == check.variables@.len(),
                    0 <= d < check.differences@.len(),
                decreases n - v,
            {
                let name = check.variables.name_at(v);
                let value = check.differences[d].assignment.get(name.as_str());
                output.append(name.as_str());
                output.append(": ");
                output.append(bool_word(value));
                if v + 1 < n {
                    output.append(", ");
                }
                v = v + 1;
            }
            output.append(", left_value: ");
            output.append(bool_word(check.differences[d].left_value));
            output.append(", right_value: ");
            output.append(bool_word(check.differences[d].right_value));
            output.append("}");
            if d + 1 < check.differences.len() {
                output.append(",\n");
            } else {
                output.append("\n");
            }
            d = d + 1;
        }
        output.append("  ]\n");
        output.append("}\n");
        output
    }

    fn format_reduction_result(&self, reduction: &Reduction) -> (r: String) {
        let mut output = String::new();
        output.append("{\n  original: \"");
        output.append(reduction.original.to_text().as_str());
        output.append("\",\n  reduced: \"");
        output.append(reduction.reduced.to_text().as_str());
        output.append("\",\n  simplified: ");
        output.append(bool_word(reduction.simplified));
        output.append("\n}\n");
        output
    }
}

/// Picks the renderer for an output format.
pub fn get_formatter(format: &OutputFormat) -> (r: Box<dyn Formatter>) {
    match format {
        OutputFormat::Table => Box::new(TableFormatter),
        OutputFormat::Json => Box::new(JsonFormatter),
        OutputFormat::Csv => Box::new(CsvFormatter),
        OutputFormat::Nuon => Box::new(NuonFormatter),
    }
}

/// Renders a truth table in the chosen format.
pub fn format_truth_table(table: &TruthTable, format: &OutputFormat) -> (r: String)
    requires
        table_rows_wf(*table),
{
    match format {
        OutputFormat::Table => TableFormatter.format_truth_table(table),
        OutputFormat::Json => JsonFormatter.format_truth_table(table),
        OutputFormat::Csv => CsvFormatter.format_truth_table(table),
        OutputFormat::Nuon => NuonFormatter.format_truth_table(table),
    }
}

/// Renders an equivalence check in the chosen format.
pub fn format_equivalence_result(
    check: &EquivalenceCheck,
    left_str: &str,
    right_str: &str,
    format: &OutputFormat,
) -> (r: String)
    requires
        check_rows_wf(*check),
{
    match format {
        OutputFormat::Table => TableFormatter.format_equivalence_result(check, left_str, right_str),
        OutputFormat::Json => JsonFormatter.format_equivalence_result(check, left_str, right_str),
        OutputFormat::Csv => CsvFormatter.format_equivalence_result(check, left_str, right_str),
        OutputFormat::Nuon => NuonFormatter.format_equivalence_result(check, left_str, right_str),
    }
}

/// Renders a reduction in the chosen format.
pub fn format_reduction_result(reduction: &Reduction, format: &OutputFormat) -> (r: String) {
    match format {
        OutputFormat::Table => TableFormatter.format_reduction_result(reduction),
        OutputFormat::Json => JsonFormatter.format_reduction_result(reduction),
        OutputFormat::Csv => CsvFormatter.format_reduction_result(reduction),
        OutputFormat::Nuon => NuonFormatter.format_reduction_result(reduction),
    }
}

} // verus!
