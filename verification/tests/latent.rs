use lsi_search::counts::{build_term_document_matrix, TermColumn, TermCounts};
use lsi_search::document::Document;
use lsi_search::lanczos::{
    action_for, advance, plan, select_significant, LanczosAction, LanczosEvent, LanczosState,
};
use lsi_search::query::{candidate_documents, effective_rank, query_terms, SearchMode};
use lsi_search::ranking::rank;
use lsi_search::terms::TermSet;
use lsi_search::tokenizer::build_vocabulary;
use nalgebra::DMatrix;

fn doc(id: i64, text: &str) -> Document {
    Document { id, title: String::new(), url: String::new(), text: text.to_string() }
}

fn score_key(score: f64) -> i64 {
    let bits = score.to_bits() as i64;
    if bits < 0 {
        bits ^ i64::MAX
    } else {
        bits
    }
}

fn weigh(column: &TermColumn, idf: &[f64]) -> Vec<(usize, f64)> {
    let mut w: Vec<(usize, f64)> = column
        .entries
        .iter()
        .map(|&(row, count)| (row, count as f64 / column.total as f64 * idf[row]))
        .collect();
    let norm = w.iter().map(|(_, v)| v * v).sum::<f64>().sqrt();
    if norm > 0.0 {
        for (_, v) in w.iter_mut() {
            *v /= norm;
        }
    }
    w
}

fn idf_of(matrix: &TermCounts) -> Vec<f64> {
    let n = matrix.n_docs() as f64;
    matrix.df.iter().map(|&df| if df == 0 { 0.0 } else { (n / df as f64).ln() }).collect()
}

fn dense(matrix: &TermCounts, idf: &[f64]) -> DMatrix<f64> {
    let mut a = DMatrix::<f64>::zeros(matrix.n_terms, matrix.n_docs());
    for (d, column) in matrix.columns.iter().enumerate() {
        for (row, weight) in weigh(column, idf) {
            a[(row, d)] = weight;
        }
    }
    a
}

fn cosine(a: &[f64], b: &[f64]) -> f64 {
    let na = a.iter().map(|x| x * x).sum::<f64>().sqrt();
    let nb = b.iter().map(|x| x * x).sum::<f64>().sqrt();
    if na < 1e-12 || nb < 1e-12 {
        return 0.0;
    }
    a.iter().zip(b).map(|(x, y)| x * y).sum::<f64>() / (na * nb)
}

#[test]
fn columns_of_the_weighted_matrix_have_unit_length() {
    let stop = TermSet::new();
    let docs = vec![
        doc(1, "car engine wheel road car"),
        doc(2, "flower garden petal bloom"),
        doc(3, "automobile engine wheel road"),
        doc(4, ""),
    ];
    let vocabulary = build_vocabulary(&docs, &stop);
    let matrix = build_term_document_matrix(&docs, &vocabulary, &stop);
    let idf = idf_of(&matrix);
    for column in &matrix.columns {
        let norm = weigh(column, &idf).iter().map(|(_, v)| v * v).sum::<f64>().sqrt();
        if column.total > 0 {
            assert!((norm - 1.0).abs() < 1e-9);
        } else {
            assert_eq!(norm, 0.0);
        }
    }
    for (&df, &weight) in matrix.df.iter().zip(&idf) {
        assert!(df <= matrix.n_docs());
        assert!(weight >= 0.0);
    }
}

#[test]
fn latent_scoring_finds_documents_without_a_common_term() {
    let stop = TermSet::new();
    let docs = vec![
        doc(1, "car engine wheel road"),
        doc(2, "flower garden petal bloom"),
        doc(3, "automobile engine wheel road"),
    ];
    let vocabulary = build_vocabulary(&docs, &stop);
    let matrix = build_term_document_matrix(&docs, &vocabulary, &stop);
    let idf = idf_of(&matrix);
    let query = query_terms("car", &vocabulary, &stop);
    let q = weigh(&query, &idf);

    let direct = candidate_documents(&matrix, &query, SearchMode::TfIdf);
    assert_eq!(direct, vec![0]);

    let a = dense(&matrix, &idf);
    let svd = a.clone().svd(true, true);
    let u = svd.u.unwrap();
    let vt = svd.v_t.unwrap();
    let sigma = svd.singular_values;
    assert!(sigma[0] >= sigma[1] && sigma[1] >= sigma[2]);
    let k = effective_rank(Some(2), sigma.len());
    assert_eq!(k, 2);

    let projected: Vec<f64> =
        (0..k).map(|j| q.iter().map(|&(row, v)| u[(row, j)] * v).sum::<f64>()).collect();
    let candidates = candidate_documents(&matrix, &query, SearchMode::Lsi);
    assert_eq!(candidates, vec![0, 1, 2]);
    let scores: Vec<f64> = candidates
        .iter()
        .map(|&d| {
            let coordinates: Vec<f64> = (0..k).map(|j| sigma[j] * vt[(j, d)]).collect();
            cosine(&projected, &coordinates)
        })
        .collect();
    let order = rank(&scores.iter().map(|&s| score_key(s)).collect(), 3);
    let ranked: Vec<i64> = order.iter().map(|&p| docs[candidates[p]].id).collect();
    assert_eq!(ranked[2], 2);
    assert!(ranked[..2].contains(&1));
    assert!(ranked[..2].contains(&3));
    assert!(scores[0] > scores[1] + 0.5);
    assert!(scores[2] > scores[1] + 0.5);
}

#[test]
fn identity_matrix_has_unit_singular_values() {
    let a = DMatrix::<f64>::identity(2, 2);
    let svd = a.clone().svd(true, true);
    assert!((svd.singular_values[0] - 1.0).abs() < 1e-12);
    assert!((svd.singular_values[1] - 1.0).abs() < 1e-12);
    let (c, s) = (0.6, 0.8);
    let rotation = DMatrix::from_row_slice(2, 2, &[c, -s, s, c]);
    let sigma = DMatrix::<f64>::identity(2, 2);
    let product = &rotation * sigma * rotation.transpose();
    for i in 0..2 {
        for j in 0..2 {
            assert!((product[(i, j)] - a[(i, j)]).abs() < 1e-12);
        }
    }
}

#[test]
fn lanczos_run_on_the_identity_ends_after_one_step() {
    let tolerance = 1e-6;
    let p = plan(2, 2, 5, 200);
    assert_eq!((p.dim, p.rank, p.steps), (2, 2, 2));
    let mut state = LanczosState::Initialising;
    let q0 = [0.6, 0.8];
    let mut alpha = Vec::new();
    let size = loop {
        match action_for(state) {
            LanczosAction::Start => state = advance(&p, state, LanczosEvent::Started),
            LanczosAction::Iterate { step } => {
                assert_eq!(step, 0);
                let v = q0;
                let a: f64 = v.iter().zip(&q0).map(|(x, y)| x * y).sum();
                alpha.push(a);
                let rest: Vec<f64> = v.iter().zip(&q0).map(|(x, y)| x - a * y).collect();
                let residual = rest.iter().map(|x| x * x).sum::<f64>().sqrt();
                let negligible = residual < tolerance || !residual.is_finite();
                state = advance(&p, state, LanczosEvent::Residual { negligible });
            }
            LanczosAction::Solve { size } => break size,
        }
    };
    assert_eq!(state, LanczosState::Degenerate { steps: 1 });
    assert_eq!(size, 1);
    let sigma: Vec<f64> = alpha.iter().map(|l: &f64| l.max(0.0).sqrt()).collect();
    assert!((sigma[0] - 1.0).abs() < 1e-12);
    let significant: Vec<bool> = sigma.iter().map(|&s| s > tolerance).collect();
    assert_eq!(select_significant(&significant, p.rank), Ok(vec![0]));
}

#[test]
fn singular_values_come_out_in_descending_order() {
    let eigenvalues = [0.25, 4.0, 1.0, -1e-9, 2.25];
    let keys: Vec<i64> = eigenvalues.iter().map(|&l| score_key(l)).collect();
    let order = rank(&keys, eigenvalues.len());
    assert_eq!(order, vec![1, 4, 2, 0, 3]);
    let tolerance = 1e-6;
    let sigma: Vec<f64> = order.iter().map(|&i| eigenvalues[i].max(0.0).sqrt()).collect();
    let significant: Vec<bool> = sigma.iter().map(|&s| s > tolerance).collect();
    let kept = select_significant(&significant, 5).unwrap();
    assert_eq!(kept, vec![0, 1, 2, 3]);
    let values: Vec<f64> = kept.iter().map(|&j| sigma[j]).collect();
    assert_eq!(values, vec![2.0, 1.5, 1.0, 0.5]);
    for pair in values.windows(2) {
        assert!(pair[0] >= pair[1] && pair[1] > tolerance);
    }
}
