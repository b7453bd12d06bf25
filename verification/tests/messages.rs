//! What the errors say.
use faer_precond::{
    BlockJacobiError, FsaiError, Ic0Error, IctError, Ilu0Error, IlukError, IlutpError, PolyError,
    SpaiError, SsorError,
};

#[test]
fn block_jacobi_messages() {
    let e = BlockJacobiError::NonSquareMatrix { nrows: 3, ncols: 12 };
    assert_eq!(e.message(), "matrix must be square but is 3x12");
    assert_eq!(BlockJacobiError::EmptyBlocks.message(), "at least one block is required");
    let e = BlockJacobiError::BlockOffsetsMustStartAtZero { first: 10 };
    assert_eq!(e.message(), "block offsets must start at 0 but start at 10");
    let e = BlockJacobiError::BlockOffsetsMustEndAtDim { last: 7, dim: 8 };
    assert_eq!(e.message(), "block offsets must end at the matrix dimension 8 but end at 7");
    let e = BlockJacobiError::BlockOffsetsNotStrictlyIncreasing { index: 2, prev: 5, curr: 4 };
    assert_eq!(
        e.message(),
        "block offsets must be strictly increasing: offset[2]=4 <= offset[1]=5"
    );
    let e = BlockJacobiError::SingularBlock { block_index: 1 };
    assert_eq!(e.message(), "diagonal block 1 is singular");
}

#[test]
fn factorisation_messages() {
    let square = "matrix must be square but is 2x3";
    let missing = "column 4 is missing its diagonal entry";
    let unsorted = "column 4 has unsorted row indices";
    let mismatch = "refactorisation pattern does not match symbolic";
    let pivot = "encountered a zero pivot at column 4";

    assert_eq!(Ilu0Error::NonSquareMatrix { nrows: 2, ncols: 3 }.message(), square);
    assert_eq!(Ilu0Error::MissingDiagonal { col: 4 }.message(), missing);
    assert_eq!(Ilu0Error::UnsortedRowIndices { col: 4 }.message(), unsorted);
    assert_eq!(Ilu0Error::PatternMismatch.message(), mismatch);
    assert_eq!(Ilu0Error::ZeroPivot { col: 4 }.message(), pivot);

    assert_eq!(IlukError::NonSquareMatrix { nrows: 2, ncols: 3 }.message(), square);
    assert_eq!(IlukError::MissingDiagonal { col: 4 }.message(), missing);
    assert_eq!(IlukError::UnsortedRowIndices { col: 4 }.message(), unsorted);
    assert_eq!(IlukError::PatternMismatch.message(), mismatch);
    assert_eq!(IlukError::ZeroPivot { col: 4 }.message(), pivot);

    assert_eq!(Ic0Error::NonSquareMatrix { nrows: 2, ncols: 3 }.message(), square);
    assert_eq!(Ic0Error::MissingDiagonal { col: 4 }.message(), missing);
    assert_eq!(Ic0Error::UnsortedRowIndices { col: 4 }.message(), unsorted);
    assert_eq!(Ic0Error::PatternMismatch.message(), mismatch);
    assert_eq!(
        Ic0Error::NotPositiveDefinite { col: 4 }.message(),
        "encountered a non-positive pivot at column 4"
    );

    assert_eq!(SsorError::NonSquareMatrix { nrows: 2, ncols: 3 }.message(), square);
    assert_eq!(SsorError::MissingDiagonal { col: 4 }.message(), missing);
    assert_eq!(SsorError::UnsortedRowIndices { col: 4 }.message(), unsorted);
    assert_eq!(SsorError::ZeroDiagonal { col: 4 }.message(), "diagonal entry 4 is zero");
    assert_eq!(
        SsorError::InvalidOmega.message(),
        "omega must lie in the open interval (0, 2)"
    );
    assert_eq!(SsorError::PatternMismatch.message(), "refactorisation pattern does not match");
}

#[test]
fn threshold_messages() {
    let square = "matrix must be square but is 100x99";
    let drop = "drop_tol must be finite and non-negative";
    let fill = "fill factor must be finite and positive";

    assert_eq!(IctError::NonSquareMatrix { nrows: 100, ncols: 99 }.message(), square);
    assert_eq!(
        IctError::NotPositiveDefinite { col: 0 }.message(),
        "encountered a non-positive pivot at column 0"
    );
    assert_eq!(IctError::PatternMismatch.message(), "refactorisation dimension does not match");
    assert_eq!(IctError::InvalidDropTol.message(), drop);
    assert_eq!(IctError::InvalidFillControl.message(), fill);

    assert_eq!(IlutpError::NonSquareMatrix { nrows: 100, ncols: 99 }.message(), square);
    assert_eq!(
        IlutpError::ZeroPivot { row: 6 }.message(),
        "encountered a zero pivot at row 6"
    );
    assert_eq!(IlutpError::InvalidDropTol.message(), drop);
    assert_eq!(
        IlutpError::InvalidPivotTol.message(),
        "pivot_tol must be finite and within [0, 1]"
    );
    assert_eq!(IlutpError::InvalidFillControl.message(), fill);
}

#[test]
fn inverse_messages() {
    let square = format!("matrix must be square but is {}x0", usize::MAX);

    assert_eq!(PolyError::NonSquareMatrix { nrows: usize::MAX, ncols: 0 }.message(), square);
    assert_eq!(PolyError::ZeroDegree.message(), "polynomial degree must be at least 1");
    assert_eq!(PolyError::InvalidOmega.message(), "neumann omega must be finite and positive");
    assert_eq!(
        PolyError::InvalidBounds.message(),
        "chebyshev bounds must satisfy 0 < lambda_min < lambda_max"
    );
    assert_eq!(PolyError::PatternMismatch.message(), "refactorisation pattern does not match");

    assert_eq!(SpaiError::NonSquareMatrix { nrows: usize::MAX, ncols: 0 }.message(), square);
    assert_eq!(SpaiError::InvalidPower.message(), "SPAI pattern power must be at least 1");

    assert_eq!(FsaiError::NonSquareMatrix { nrows: usize::MAX, ncols: 0 }.message(), square);
    assert_eq!(FsaiError::InvalidPower.message(), "FSAI pattern power must be at least 1");
    assert_eq!(
        FsaiError::NotPositiveDefinite { row: 12345 }.message(),
        "local block at row 12345 is not positive definite"
    );
}
